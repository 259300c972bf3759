use vstd::prelude::*;
use vstd::string::*;

use crate::folders::FileType;
use crate::indexing::{entry_views, paths_distinct, WalkEntry, WalkEntryView};
use crate::paths::{
    beneath, last_slash, lemma_beneath_within, lemma_last_slash_bounds, parent_of, same_text, within,
};

verus! {

broadcast use vstd::std_specs::vec::group_vec_axioms, vstd::seq::group_seq_axioms;

/// One entry of a directory listing, as read from disk. A folder holds its own
/// listing, or `None` where that listing could not be read.
pub enum DirNode {
    File { name: String, created_at: Option<i64>, size: Option<i64> },
    Folder { name: String, created_at: Option<i64>, size: Option<i64>, children: Option<Vec<DirNode>> },
}

/// A name that names one entry of its directory: not empty, and without `/`.
pub open spec fn is_component(name: Seq<char>) -> bool {
    name.len() > 0 && forall|i: int| 0 <= i < name.len() ==> #[trigger] name[i] != '/'
}

/// The path of the entry `name` of the directory `dir`.
pub open spec fn child_path(dir: Seq<char>, name: Seq<char>) -> Seq<char> {
    dir + seq!['/'] + name
}

pub open spec fn node_name(n: DirNode) -> Seq<char> {
    match n {
        DirNode::File { name, .. } => name@,
        DirNode::Folder { name, .. } => name@,
    }
}

/// The walk entry of one node of the directory `dir`.
pub open spec fn node_entry(dir: Seq<char>, n: DirNode) -> WalkEntryView {
    match n {
        DirNode::File { name, created_at, size } => WalkEntryView {
            path: child_path(dir, name@),
            kind: FileType::File,
            created_at,
            size,
        },
        DirNode::Folder { name, created_at, size, .. } => WalkEntryView {
            path: child_path(dir, name@),
            kind: FileType::Folder,
            created_at,
            size,
        },
    }
}

/// A later node of the listing has the same name as its first node.
pub open spec fn has_later_twin(nodes: Seq<DirNode>) -> bool {
    exists|j: int| 1 <= j < nodes.len() && #[trigger] node_name(nodes[j]) == node_name(nodes[0])
}

/// The depth-first walk of the listing `nodes` of the directory `dir`: each node
/// before what it holds, a folder whose listing could not be read without contents,
/// and a node whose name is not a single path component, or is repeated later in the
/// same listing, left out with what it holds.
pub open spec fn preorder(dir: Seq<char>, nodes: Seq<DirNode>) -> Seq<WalkEntryView>
    decreases nodes,
{
    if nodes.len() == 0 {
        Seq::empty()
    } else {
        let n = nodes[0];
        let rest = preorder(dir, nodes.drop_first());
        if !is_component(node_name(n)) || has_later_twin(nodes) {
            rest
        } else {
            let inner = match n {
                DirNode::Folder { name, children: Some(v), .. } => {
                    preorder(child_path(dir, name@), v@)
                },
                _ => Seq::empty(),
            };
            seq![node_entry(dir, n)] + inner + rest
        }
    }
}

pub open spec fn listing_entries(root: Seq<char>, listing: Option<Vec<DirNode>>) -> Seq<WalkEntryView> {
    match listing {
        Some(v) => preorder(root, v@),
        None => Seq::empty(),
    }
}


/// What a walk of the directory `root` must give for a rebuild to link it: every entry
/// lies beneath the root, and the parent directory of each entry is the root or the
/// path of an earlier folder entry.
pub open spec fn walk_ok(root: Seq<char>, es: Seq<WalkEntryView>) -> bool {
    &&& forall|k: int| 0 <= k < es.len() ==> beneath(root, (#[trigger] es[k]).path)
    &&& forall|k: int|
        0 <= k < es.len() ==> parent_of((#[trigger] es[k]).path) == root || exists|j: int|
            0 <= j < k && (#[trigger] es[j]).kind == FileType::Folder && es[j].path == parent_of(
                es[k].path,
            )
}

proof fn lemma_last_slash_child(dir: Seq<char>, name: Seq<char>)
    requires
        is_component(name),
    ensures
        last_slash(child_path(dir, name)) == dir.len(),
        parent_of(child_path(dir, name)) == dir,
        beneath(dir, child_path(dir, name)),
    decreases name.len(),
{
    let p = child_path(dir, name);
    assert(name[name.len() - 1] != '/');
    assert(p.last() == name[name.len() - 1]);
    if name.len() == 1 {
        assert(p.drop_last() =~= dir + seq!['/']);
        assert((dir + seq!['/']).last() == '/');
        assert(last_slash(p.drop_last()) == dir.len());
    } else {
        let shorter = name.drop_last();
        assert(is_component(shorter)) by {
            assert forall|i: int| 0 <= i < shorter.len() implies #[trigger] shorter[i] != '/' by {
                assert(shorter[i] == name[i]);
            }
        }
        lemma_last_slash_child(dir, shorter);
        assert(p.drop_last() =~= child_path(dir, shorter));
        assert(p.last() == name.last());
    }
    assert(p.take(dir.len() as int) =~= dir);
}

/// The walk of a listing keeps its order: entries lie beneath the directory and each
/// one comes after the folder entry of its parent directory, unless that is the
/// directory itself.
pub proof fn lemma_preorder_walk_ok(dir: Seq<char>, nodes: Seq<DirNode>)
    ensures
        walk_ok(dir, preorder(dir, nodes)),
    decreases nodes,
{
    if nodes.len() > 0 {
        let n = nodes[0];
        lemma_preorder_walk_ok(dir, nodes.drop_first());
        let rest = preorder(dir, nodes.drop_first());
        if is_component(node_name(n)) && !has_later_twin(nodes) {
            let e = node_entry(dir, n);
            let p = e.path;
            lemma_last_slash_child(dir, node_name(n));
            let inner = match n {
                DirNode::Folder { name, children: Some(v), .. } => preorder(child_path(dir, name@), v@),
                _ => Seq::empty(),
            };
            match n {
                DirNode::Folder { name, children: Some(v), .. } => {
                    lemma_preorder_walk_ok(child_path(dir, name@), v@);
                },
                _ => {},
            }
            let es = seq![e] + inner + rest;
            assert(es == preorder(dir, nodes));
            assert forall|k: int| 0 <= k < es.len() implies beneath(dir, (#[trigger] es[k]).path) by {
                if 1 <= k < 1 + inner.len() {
                    assert(es[k] == inner[k - 1]);
                    lemma_beneath_within(dir, p, inner[k - 1].path);
                } else if k >= 1 + inner.len() {
                    assert(es[k] == rest[k - 1 - inner.len()]);
                }
            }
            assert forall|k: int| 0 <= k < es.len() implies parent_of((#[trigger] es[k]).path) == dir
                || exists|j: int|
                0 <= j < k && (#[trigger] es[j]).kind == FileType::Folder && es[j].path == parent_of(
                    es[k].path,
                ) by {
                if 1 <= k < 1 + inner.len() {
                    let x = inner[k - 1];
                    assert(es[k] == x);
                    if parent_of(x.path) != p {
                        let j = choose|j: int|
                            0 <= j < k - 1 && (#[trigger] inner[j]).kind == FileType::Folder
                                && inner[j].path == parent_of(x.path);
                        assert(es[j + 1] == inner[j]);
                    } else {
                        assert(inner.len() > 0);
                        assert(e.kind == FileType::Folder);
                        assert(es[0] == e);
                    }
                } else if k >= 1 + inner.len() {
                    let m = k - 1 - inner.len();
                    assert(es[k] == rest[m]);
                    if parent_of(rest[m].path) != dir {
                        let j = choose|j: int|
                            0 <= j < m && (#[trigger] rest[j]).kind == FileType::Folder
                                && rest[j].path == parent_of(rest[m].path);
                        assert(es[j + 1 + inner.len()] == rest[j]);
                    }
                }
            }
        }
    }
}

/// `x` is the path of the `i`-th node of the listing of `dir`, or lies beneath it.
pub open spec fn lies_in_node(dir: Seq<char>, nodes: Seq<DirNode>, i: int, x: Seq<char>) -> bool {
    0 <= i < nodes.len() && is_component(node_name(nodes[i])) && within(
        child_path(dir, node_name(nodes[i])),
        x,
    )
}

proof fn lemma_preorder_origin(dir: Seq<char>, nodes: Seq<DirNode>)
    ensures
        forall|k: int|
            0 <= k < preorder(dir, nodes).len() ==> exists|i: int|
                lies_in_node(dir, nodes, i, (#[trigger] preorder(dir, nodes)[k]).path),
    decreases nodes,
{
    if nodes.len() > 0 {
        let n = nodes[0];
        let tail = nodes.drop_first();
        lemma_preorder_origin(dir, tail);
        let rest = preorder(dir, tail);
        let es = preorder(dir, nodes);
        assert forall|m: int| 0 <= m < rest.len() implies exists|i: int|
            lies_in_node(dir, nodes, i, #[trigger] rest[m].path) by {
            let i = choose|i: int| lies_in_node(dir, tail, i, rest[m].path);
            assert(tail[i] == nodes[i + 1]);
            assert(lies_in_node(dir, nodes, i + 1, rest[m].path));
        }
        if is_component(node_name(n)) && !has_later_twin(nodes) {
            let p = child_path(dir, node_name(n));
            let inner = match n {
                DirNode::Folder { name, children: Some(v), .. } => preorder(child_path(dir, name@), v@),
                _ => Seq::empty(),
            };
            match n {
                DirNode::Folder { name, children: Some(v), .. } => {
                    lemma_preorder_walk_ok(child_path(dir, name@), v@);
                },
                _ => {},
            }
            assert(es == seq![node_entry(dir, n)] + inner + rest);
            assert forall|k: int| 0 <= k < es.len() implies exists|i: int|
                lies_in_node(dir, nodes, i, (#[trigger] es[k]).path) by {
                if k == 0 {
                    assert(lies_in_node(dir, nodes, 0, es[0].path));
                } else if k < 1 + inner.len() {
                    assert(es[k] == inner[k - 1]);
                    assert(beneath(p, inner[k - 1].path));
                    assert(lies_in_node(dir, nodes, 0, es[k].path));
                } else {
                    assert(es[k] == rest[k - 1 - inner.len()]);
                }
            }
        }
    }
}

proof fn lemma_within_prefix(a: Seq<char>, x: Seq<char>)
    requires
        within(a, x),
    ensures
        x.len() >= a.len(),
        x.take(a.len() as int) == a,
        x.len() > a.len() ==> x[a.len() as int] == '/',
{
    if x == a {
        assert(x.take(a.len() as int) =~= a);
    }
}

/// Nothing lies within the paths of two different entries of one directory.
proof fn lemma_siblings_disjoint(dir: Seq<char>, a: Seq<char>, b: Seq<char>, x: Seq<char>)
    requires
        is_component(a),
        is_component(b),
        a != b,
        within(child_path(dir, a), x),
    ensures
        !within(child_path(dir, b), x),
{
    let pa = child_path(dir, a);
    let pb = child_path(dir, b);
    let d: int = dir.len() as int + 1;
    lemma_within_prefix(pa, x);
    if within(pb, x) {
        lemma_within_prefix(pb, x);
        if pa.len() == pb.len() {
            assert(pa == pb);
            assert(a =~= pa.skip(d));
            assert(b =~= pb.skip(d));
        } else if pa.len() < pb.len() {
            assert(pb.take(pa.len() as int) =~= x.take(pa.len() as int));
            assert(x[pa.len() as int] == pb[pa.len() as int]);
            assert(pb[pa.len() as int] == b[a.len() as int]);
        } else {
            assert(pa.take(pb.len() as int) =~= x.take(pb.len() as int));
            assert(x[pb.len() as int] == pa[pb.len() as int]);
            assert(pa[pb.len() as int] == a[b.len() as int]);
        }
    }
}

/// A folder's entry, then what lies beneath it, then entries that lie outside it,
/// name each path once where each part does.
proof fn lemma_joined_distinct(
    p: Seq<char>,
    e: WalkEntryView,
    inner: Seq<WalkEntryView>,
    rest: Seq<WalkEntryView>,
)
    requires
        e.path == p,
        paths_distinct(inner),
        paths_distinct(rest),
        forall|k: int| 0 <= k < inner.len() ==> beneath(p, (#[trigger] inner[k]).path),
        forall|m: int| 0 <= m < rest.len() ==> !within(p, (#[trigger] rest[m]).path),
    ensures
        paths_distinct(seq![e] + inner + rest),
{
    let es = seq![e] + inner + rest;
    let l = 1 + inner.len();
    assert forall|i: int, j: int| 0 <= i < j < es.len() implies (#[trigger] es[i]).path
        != (#[trigger] es[j]).path by {
        if j >= l {
            assert(es[j] == rest[j - l]);
            if i >= l {
                assert(es[i] == rest[i - l]);
            } else if i == 0 {
                assert(es[i] == e);
            } else {
                assert(es[i] == inner[i - 1]);
                assert(beneath(p, inner[i - 1].path));
            }
        } else if i == 0 {
            assert(es[j] == inner[j - 1]);
            assert(beneath(p, inner[j - 1].path));
        } else {
            assert(es[i] == inner[i - 1]);
            assert(es[j] == inner[j - 1]);
        }
    }
}

/// A walk names each path once.
pub proof fn lemma_preorder_distinct(dir: Seq<char>, nodes: Seq<DirNode>)
    ensures
        paths_distinct(preorder(dir, nodes)),
    decreases nodes,
{
    if nodes.len() > 0 {
        let n = nodes[0];
        let tail = nodes.drop_first();
        lemma_preorder_distinct(dir, tail);
        lemma_preorder_origin(dir, tail);
        let rest = preorder(dir, tail);
        let es = preorder(dir, nodes);
        if is_component(node_name(n)) && !has_later_twin(nodes) {
            let a = node_name(n);
            let p = child_path(dir, a);
            let inner = match n {
                DirNode::Folder { name, children: Some(v), .. } => preorder(child_path(dir, name@), v@),
                _ => Seq::empty(),
            };
            match n {
                DirNode::Folder { name, children: Some(v), .. } => {
                    lemma_preorder_walk_ok(child_path(dir, name@), v@);
                    lemma_preorder_distinct(child_path(dir, name@), v@);
                },
                _ => {},
            }
            assert(es == seq![node_entry(dir, n)] + inner + rest);
            // Everything before the rest lies within `p`; nothing of the rest does.
            assert forall|m: int| 0 <= m < rest.len() implies !within(p, #[trigger] rest[m].path) by {
                let i = choose|i: int| lies_in_node(dir, tail, i, rest[m].path);
                assert(tail[i] == nodes[i + 1]);
                assert(node_name(nodes[i + 1]) != a);
                lemma_siblings_disjoint(dir, node_name(tail[i]), a, rest[m].path);
            }
            lemma_joined_distinct(p, node_entry(dir, n), inner, rest);
        } else {
            assert(es == rest);
        }
    }
}

/// Whether `name` is a single path component.
fn is_component_name(name: &str) -> (r: bool)
    ensures
        r == is_component(name@),
{
    proof {
        lemma_last_slash_bounds(name@);
    }
    let n = name.unicode_len();
    if n == 0 {
        return false;
    }
    let none = crate::paths::last_slash_index(name).is_none();
    proof {
        if !none {
            assert(name@[last_slash(name@)] == '/');
        }
    }
    none
}

fn walk_into(dir: &str, nodes: &Vec<DirNode>, out: &mut Vec<WalkEntry>)
    ensures
        entry_views(final(out)@) == entry_views(old(out)@) + preorder(dir@, nodes@),
    decreases nodes@,
{
    let mut i: usize = 0;
    assert(nodes@.skip(0) =~= nodes@);
    while i < nodes.len()
        invariant
            i <= nodes@.len(),
            entry_views(out@) + preorder(dir@, nodes@.skip(i as int)) == entry_views(old(out)@)
                + preorder(dir@, nodes@),
        decreases nodes@.len() - i,
    {
        let ghost suffix = nodes@.skip(i as int);
        let ghost before = out@;
        proof {
            assert(suffix.drop_first() =~= nodes@.skip(i + 1));
            assert(suffix[0] == nodes@[i as int]);
        }
        let node = &nodes[i];
        let name = match node {
            DirNode::File { name, .. } => name,
            DirNode::Folder { name, .. } => name,
        };
        let mut twin = false;
        let mut j: usize = i + 1;
        while j < nodes.len()
            invariant
                i < nodes@.len(),
                i + 1 <= j <= nodes@.len(),
                suffix == nodes@.skip(i as int),
                name@ == node_name(nodes@[i as int]),
                twin == exists|m: int| i + 1 <= m < j && #[trigger] node_name(nodes@[m]) == name@,
            decreases nodes@.len() - j,
        {
            let other = match &nodes[j] {
                DirNode::File { name, .. } => name,
                DirNode::Folder { name, .. } => name,
            };
            assert(other@ == node_name(nodes@[j as int]));
            if same_text(other.as_str(), name.as_str()) {
                twin = true;
            }
            assert(twin == exists|m: int| i + 1 <= m < j + 1 && #[trigger] node_name(nodes@[m]) == name@) by {
                if node_name(nodes@[j as int]) == name@ {
                    assert(node_name(nodes@[j as int]) == name@);
                }
            }
            j = j + 1;
        }
        proof {
            if twin {
                let m = choose|m: int| i + 1 <= m < nodes@.len() && #[trigger] node_name(nodes@[m]) == name@;
                assert(node_name(suffix[m - i]) == node_name(suffix[0]));
            }
            if has_later_twin(suffix) {
                let m = choose|m: int| 1 <= m < suffix.len() && #[trigger] node_name(suffix[m]) == node_name(suffix[0]);
                assert(node_name(nodes@[m + i]) == name@);
            }
        }
        if !twin && is_component_name(name.as_str()) {
            let mut path = String::from_str(dir);
            path.append("/");
            path.append(name.as_str());
            proof {
                reveal_strlit("/");
                assert(path@ =~= child_path(dir@, node_name(*node)));
            }
            let entry = match node {
                DirNode::File { created_at, size, .. } => WalkEntry {
                    path: path.clone(),
                    file_type: FileType::File,
                    created_at: *created_at,
                    size: *size,
                },
                DirNode::Folder { created_at, size, .. } => WalkEntry {
                    path: path.clone(),
                    file_type: FileType::Folder,
                    created_at: *created_at,
                    size: *size,
                },
            };
            assert(entry@ == node_entry(dir@, *node));
            out.push(entry);
            assert(entry_views(out@) =~= entry_views(before).push(node_entry(dir@, *node)));
            let ghost mid = out@;
            match node {
                DirNode::Folder { children: Some(v), .. } => {
                    walk_into(path.as_str(), v, out);
                },
                _ => {},
            }
            assert(entry_views(out@) + preorder(dir@, nodes@.skip(i + 1)) =~= entry_views(before)
                + preorder(dir@, suffix));
        } else {
            assert(preorder(dir@, suffix) == preorder(dir@, nodes@.skip(i + 1)));
        }
        i = i + 1;
    }
    assert(nodes@.skip(nodes@.len() as int) =~= Seq::<DirNode>::empty());
    assert(entry_views(out@) =~= entry_views(old(out)@) + preorder(dir@, nodes@));
}

/// Walks the listing of the vault's root depth first: each entry is named by its
/// directory's path, `/` and its name, and comes before what it holds; a folder whose
/// listing could not be read is kept without contents, and an unreadable root gives an
/// empty walk. No path is named twice.
pub fn walk_directory(root: &str, listing: &Option<Vec<DirNode>>) -> (r: Vec<WalkEntry>)
    ensures
        listing is None ==> r@.len() == 0,
        entry_views(r@) == listing_entries(root@, *listing),
        walk_ok(root@, entry_views(r@)),
        paths_distinct(entry_views(r@)),
{
    let mut out: Vec<WalkEntry> = Vec::new();
    match listing {
        None => {
            assert(entry_views(out@) =~= Seq::<WalkEntryView>::empty());
        },
        Some(v) => {
            assert(entry_views(out@) =~= Seq::<WalkEntryView>::empty());
            walk_into(root, v, &mut out);
            assert(entry_views(out@) =~= preorder(root@, v@));
            proof {
                lemma_preorder_walk_ok(root@, v@);
                lemma_preorder_distinct(root@, v@);
            }
        },
    }
    out
}

} // verus!
