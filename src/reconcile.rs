//! Merging what a scan found on disk into the node set of a project.
//!
//! Both modes work on a *path index*: the `(normalized file path, node id)`
//! pairs of the nodes already placed, in node order. Incremental sync starts
//! from the index of the project's tracked nodes; rebuild starts from an empty
//! index after dropping every node of the project but its root markers.
use vstd::prelude::*;
use vstd::string::*;
use crate::classify::{get_file_extension, lowered_extension};
use crate::scan::{ScanEntry, is_excluded_name, names_visible};
use crate::text::{has_prefix, normalize_separators, normalized, str_eq};
use crate::types::{Node, ProjectData, root_sentinel};

verus! {

/// Why a reconciliation was refused.
#[derive(Clone, Copy, Debug, PartialEq, Eq, Structural)]
pub enum ReconcileError {
    /// The dataset holds no root marker for the project.
    RootNotFound,
    /// Fewer identifiers were supplied than nodes are to be created.
    TooFewIds,
    /// A supplied identifier repeats, or is already taken by a stored node.
    IdInUse,
}

impl ReconcileError {
    /// The message shown for the error.
    pub fn message(&self) -> (r: String)
        ensures
            *self == ReconcileError::RootNotFound ==> r@ == "Project root not found"@,
            *self == ReconcileError::TooFewIds ==> r@ == "Not enough node identifiers"@,
            *self == ReconcileError::IdInUse ==> r@ == "Node identifier already in use"@,
    {
        match self {
            ReconcileError::RootNotFound => String::from_str("Project root not found"),
            ReconcileError::TooFewIds => String::from_str("Not enough node identifiers"),
            ReconcileError::IdInUse => String::from_str("Node identifier already in use"),
        }
    }
}

/// The node belongs to the project and records a file path.
pub open spec fn tracks(n: Node, pid: Seq<char>) -> bool {
    n.project_id@ == pid && n.file_path is Some
}

/// The pair a placed node contributes to a path index.
pub open spec fn index_entry(n: Node) -> (Seq<char>, Seq<char>) {
    (normalized(n.file_path->0@), n.id@)
}

/// The path index of the project's tracked nodes, in node order.
pub open spec fn path_index(nodes: Seq<Node>, pid: Seq<char>) -> Seq<(Seq<char>, Seq<char>)> {
    nodes.filter(|n: Node| tracks(n, pid)).map_values(|n: Node| index_entry(n))
}

/// The pairs that newly created nodes add to a path index.
pub open spec fn entries_of(new: Seq<Node>) -> Seq<(Seq<char>, Seq<char>)> {
    new.map_values(|n: Node| index_entry(n))
}

/// The path `p` occurs in the index.
pub open spec fn indexed(index: Seq<(Seq<char>, Seq<char>)>, p: Seq<char>) -> bool {
    exists|i: int| 0 <= i < index.len() && index[i].0 == p
}

/// Position of the first pair of the index with path `p`, or -1.
pub open spec fn lookup(index: Seq<(Seq<char>, Seq<char>)>, p: Seq<char>) -> int
    decreases index.len(),
{
    if index.len() == 0 {
        -1
    } else if index[0].0 == p {
        0
    } else {
        let k = lookup(index.drop_first(), p);
        if k < 0 { -1 } else { k + 1 }
    }
}

/// The normalized relative path of a found entry.
pub open spec fn entry_path(e: ScanEntry) -> Seq<char> {
    normalized(e.relative_path@)
}

/// Positions of the found entries that get a new node: those whose path is
/// neither in the starting index nor the path of an earlier entry.
pub open spec fn fresh_indices(index0: Seq<(Seq<char>, Seq<char>)>, found: Seq<ScanEntry>) -> Seq<
    int,
>
    decreases found.len(),
{
    if found.len() == 0 {
        Seq::empty()
    } else {
        let prev = fresh_indices(index0, found.drop_last());
        let p = entry_path(found.last());
        if indexed(index0, p) || exists|j: int|
            0 <= j < found.len() - 1 && entry_path(found[j]) == p {
            prev
        } else {
            prev.push(found.len() - 1)
        }
    }
}

/// The parent a new node gets: the root for a top-level entry, else the node
/// placed at the parent path, else the root.
pub open spec fn parent_for(
    index: Seq<(Seq<char>, Seq<char>)>,
    root_id: Seq<char>,
    parent_path: Seq<char>,
) -> Seq<char> {
    let i = lookup(index, normalized(parent_path));
    if parent_path.len() == 0 || i < 0 {
        root_id
    } else {
        index[i].1
    }
}

/// `n` is the node created for the found entry `e` of project `pid` under `parent`.
pub open spec fn node_for(n: Node, e: ScanEntry, pid: Seq<char>, parent: Seq<char>) -> bool {
    &&& n.name@ == e.name@
    &&& n.node_type@ == (if e.is_folder { "folder"@ } else { "file"@ })
    &&& n.parent_id is Some && n.parent_id->0@ == parent
    &&& n.project_id@ == pid
    &&& n.hidden == Some(false)
    &&& n.file_path is Some && n.file_path->0@ == entry_path(e)
    &&& if e.is_folder {
        &&& n.extension is None
        &&& n.size is None
        &&& n.modified is None
        &&& n.is_binary is None
    } else {
        &&& (match lowered_extension(e.name@) {
            Some(x) => n.extension is Some && n.extension->0@ == x,
            None => n.extension is None,
        })
        &&& n.size == Some(e.size)
        &&& n.modified == Some(e.modified)
        &&& n.is_binary == Some(e.is_binary)
    }
}

/// `new` are the nodes that merging `found` into the index `index0` creates,
/// in order, each linked to its parent as placed so far.
pub open spec fn reconciled(
    index0: Seq<(Seq<char>, Seq<char>)>,
    pid: Seq<char>,
    root_id: Seq<char>,
    found: Seq<ScanEntry>,
    new: Seq<Node>,
) -> bool {
    let sel = fresh_indices(index0, found);
    &&& new.len() == sel.len()
    &&& forall|k: int|
        0 <= k < new.len() ==> node_for(
            #[trigger] new[k],
            found[sel[k]],
            pid,
            parent_for(index0 + entries_of(new.take(k)), root_id, found[sel[k]].parent_path@),
        )
}

/// Position of the project's first root marker, or -1.
pub open spec fn root_index(nodes: Seq<Node>, pid: Seq<char>) -> int
    decreases nodes.len(),
{
    if nodes.len() == 0 {
        -1
    } else if nodes[0].project_id@ == pid && nodes[0].is_root_marker() {
        0
    } else {
        let k = root_index(nodes.drop_first(), pid);
        if k < 0 { -1 } else { k + 1 }
    }
}

/// The nodes a rebuild keeps: those of other projects, and the project's root markers.
pub open spec fn kept_by_rebuild(n: Node, pid: Seq<char>) -> bool {
    n.project_id@ != pid || n.is_root_marker()
}

/// The file paths of the project's nodes other than its root markers.
pub open spec fn content_paths(nodes: Seq<Node>, pid: Seq<char>) -> Set<Seq<char>> {
    Set::new(
        |p: Seq<char>|
            exists|i: int|
                0 <= i < nodes.len() && nodes[i].project_id@ == pid && !nodes[i].is_root_marker()
                    && nodes[i].file_path is Some && nodes[i].file_path->0@ == p,
    )
}

/// The normalized paths of the found entries.
pub open spec fn scan_paths(found: Seq<ScanEntry>) -> Set<Seq<char>> {
    Set::new(|p: Seq<char>| exists|j: int| 0 <= j < found.len() && entry_path(found[j]) == p)
}

/// The first `m` identifiers differ from each other and from every stored node's.
pub open spec fn ids_fresh(ids: Seq<String>, m: int, nodes: Seq<Node>) -> bool {
    &&& forall|a: int, b: int| 0 <= a < b < m ==> ids[a]@ != ids[b]@
    &&& forall|a: int, j: int| 0 <= a < m && 0 <= j < nodes.len() ==> ids[a]@ != nodes[j].id@
}

/// The new nodes' identifiers differ from each other and from every stored node's.
pub open spec fn new_ids_fresh(new: Seq<Node>, nodes: Seq<Node>) -> bool {
    &&& forall|a: int, b: int| 0 <= a < b < new.len() ==> new[a].id@ != new[b].id@
    &&& forall|a: int, j: int| 0 <= a < new.len() && 0 <= j < nodes.len() ==> new[a].id@ != nodes[j].id@
}

/// How many nodes a sync of `found` creates.
pub open spec fn sync_count(nodes: Seq<Node>, pid: Seq<char>, found: Seq<ScanEntry>) -> int {
    fresh_indices(path_index(nodes, pid), found).len() as int
}

/// How many nodes a rebuild from `found` creates.
pub open spec fn rebuild_count(found: Seq<ScanEntry>) -> int {
    fresh_indices(Seq::empty(), found).len() as int
}

/// No two tracked nodes of the project share a normalized file path.
pub open spec fn paths_unique(nodes: Seq<Node>, pid: Seq<char>) -> bool {
    let index = path_index(nodes, pid);
    forall|i: int, j: int| 0 <= i < j < index.len() ==> index[i].0 != index[j].0
}

proof fn lemma_lookup(index: Seq<(Seq<char>, Seq<char>)>, p: Seq<char>, i: int)
    requires
        0 <= i <= index.len(),
        forall|j: int| 0 <= j < i ==> index[j].0 != p,
    ensures
        i < index.len() && index[i].0 == p ==> lookup(index, p) == i,
        i == index.len() ==> lookup(index, p) == -1,
    decreases i,
{
    if i > 0 {
        let rest = index.drop_first();
        assert forall|j: int| 0 <= j < i - 1 implies rest[j].0 != p by {
            assert(rest[j] == index[j + 1]);
        }
        lemma_lookup(rest, p, i - 1);
    }
}

proof fn lemma_root_index(nodes: Seq<Node>, pid: Seq<char>, i: int)
    requires
        0 <= i <= nodes.len(),
        forall|j: int| 0 <= j < i ==> !(nodes[j].project_id@ == pid && nodes[j].is_root_marker()),
    ensures
        i < nodes.len() && nodes[i].project_id@ == pid && nodes[i].is_root_marker() ==> root_index(
            nodes,
            pid,
        ) == i,
        i == nodes.len() ==> root_index(nodes, pid) == -1,
    decreases i,
{
    if i > 0 {
        let rest = nodes.drop_first();
        assert forall|j: int| 0 <= j < i - 1 implies !(rest[j].project_id@ == pid
            && rest[j].is_root_marker()) by {
            assert(rest[j] == nodes[j + 1]);
        }
        lemma_root_index(rest, pid, i - 1);
    }
}

proof fn lemma_normalized_idempotent(s: Seq<char>)
    ensures
        normalized(normalized(s)) == normalized(s),
{
    assert(normalized(normalized(s)) =~= normalized(s));
}

/// Position of the project's first root marker.
pub fn find_root(nodes: &Vec<Node>, project_id: &str) -> (r: Option<usize>)
    ensures
        match r {
            Some(k) => k as int == root_index(nodes@, project_id@) && k < nodes@.len(),
            None => root_index(nodes@, project_id@) == -1,
        },
{
    let mut i: usize = 0;
    while i < nodes.len()
        invariant
            i <= nodes@.len(),
            forall|j: int|
                0 <= j < i ==> !(nodes@[j].project_id@ == project_id@
                    && nodes@[j].is_root_marker()),
        decreases nodes.len() - i,
    {
        if str_eq(nodes[i].project_id.as_str(), project_id) && nodes[i].marks_root() {
            proof {
                lemma_root_index(nodes@, project_id@, i as int);
            }
            return Some(i);
        }
        i += 1;
    }
    proof {
        lemma_root_index(nodes@, project_id@, i as int);
    }
    None
}

/// The index viewed as pairs of paths and identifiers.
pub open spec fn index_view(keys: Seq<String>, ids: Seq<String>) -> Seq<(Seq<char>, Seq<char>)> {
    Seq::new(keys.len(), |i: int| (keys[i]@, ids[i]@))
}

/// Position of the first pair of the index whose path is `p`.
fn index_find(keys: &Vec<String>, ids: &Vec<String>, p: &String) -> (r: Option<usize>)
    requires
        keys@.len() == ids@.len(),
    ensures
        match r {
            Some(k) => k as int == lookup(index_view(keys@, ids@), p@) && k < keys@.len(),
            None => lookup(index_view(keys@, ids@), p@) == -1 && !indexed(
                index_view(keys@, ids@),
                p@,
            ),
        },
        r is Some <==> indexed(index_view(keys@, ids@), p@),
{
    let ghost index = index_view(keys@, ids@);
    let mut i: usize = 0;
    while i < keys.len()
        invariant
            index == index_view(keys@, ids@),
            keys@.len() == ids@.len(),
            i <= keys@.len(),
            forall|j: int| 0 <= j < i ==> index[j].0 != p@,
        decreases keys.len() - i,
    {
        if keys[i] == *p {
            proof {
                lemma_lookup(index, p@, i as int);
                assert(index[i as int].0 == p@);
            }
            return Some(i);
        }
        i += 1;
    }
    proof {
        lemma_lookup(index, p@, i as int);
    }
    None
}

/// The index of the project's tracked nodes, as parallel vectors of paths and identifiers.
fn build_index(nodes: &Vec<Node>, project_id: &str) -> (r: (Vec<String>, Vec<String>))
    ensures
        r.0@.len() == r.1@.len(),
        index_view(r.0@, r.1@) == path_index(nodes@, project_id@),
{
    let ghost pid = project_id@;
    let mut keys: Vec<String> = Vec::new();
    let mut ids: Vec<String> = Vec::new();
    let mut i: usize = 0;
    while i < nodes.len()
        invariant
            pid == project_id@,
            i <= nodes@.len(),
            keys@.len() == ids@.len(),
            index_view(keys@, ids@) == path_index(nodes@.take(i as int), pid),
        decreases nodes.len() - i,
    {
        let n = &nodes[i];
        let ghost before = index_view(keys@, ids@);
        proof {
            reveal(Seq::filter);
            assert(nodes@.take(i as int + 1).drop_last() =~= nodes@.take(i as int));
            assert(nodes@.take(i as int + 1).last() == nodes@[i as int]);
        }
        if str_eq(n.project_id.as_str(), project_id) {
            match &n.file_path {
                Some(fp) => {
                    keys.push(normalize_separators(fp.as_str()));
                    ids.push(n.id.clone());
                    proof {
                        let f = nodes@.take(i as int).filter(|m: Node| tracks(m, pid));
                        assert(nodes@.take(i as int + 1).filter(|m: Node| tracks(m, pid)) =~= f.push(*n));
                        assert(f.push(*n).map_values(|m: Node| index_entry(m)) =~= f.map_values(
                            |m: Node| index_entry(m),
                        ).push(index_entry(*n)));
                        assert(index_view(keys@, ids@) =~= before.push(index_entry(*n)));
                    }
                },
                None => {
                    assert(nodes@.take(i as int + 1).filter(|m: Node| tracks(m, pid))
                        =~= nodes@.take(i as int).filter(|m: Node| tracks(m, pid)));
                },
            }
        } else {
            assert(nodes@.take(i as int + 1).filter(|m: Node| tracks(m, pid)) =~= nodes@.take(
                i as int,
            ).filter(|m: Node| tracks(m, pid)));
        }
        i += 1;
    }
    assert(nodes@.take(nodes@.len() as int) =~= nodes@);
    (keys, ids)
}

/// The node created for the found entry `e` under `parent`, with identifier `id`.
fn make_node(e: &ScanEntry, project_id: &str, parent: String, id: String, path: String) -> (n: Node)
    requires
        path@ == entry_path(*e),
    ensures
        node_for(n, *e, project_id@, parent@),
        n.id == id,
{
    if e.is_folder {
        Node {
            id,
            name: e.name.clone(),
            node_type: String::from_str("folder"),
            extension: None,
            parent_id: Some(parent),
            project_id: String::from_str(project_id),
            hidden: Some(false),
            file_path: Some(path),
            size: None,
            modified: None,
            is_binary: None,
        }
    } else {
        Node {
            id,
            name: e.name.clone(),
            node_type: String::from_str("file"),
            extension: get_file_extension(e.name.as_str()),
            parent_id: Some(parent),
            project_id: String::from_str(project_id),
            hidden: Some(false),
            file_path: Some(path),
            size: Some(e.size),
            modified: Some(e.modified),
            is_binary: Some(e.is_binary),
        }
    }
}

/// Merges the found entries against the path index held in `keys` and `ids`;
/// returns the nodes created. The `k`-th of them takes `fresh[k]` as its
/// identifier (an empty one once `fresh` runs out).
fn merge_entries(
    keys: &mut Vec<String>,
    ids: &mut Vec<String>,
    project_id: &str,
    root_id: &str,
    found: &Vec<ScanEntry>,
    fresh: &Vec<String>,
) -> (new: Vec<Node>)
    requires
        old(keys)@.len() == old(ids)@.len(),
    ensures
        reconciled(index_view(old(keys)@, old(ids)@), project_id@, root_id@, found@, new@),
        forall|k: int| 0 <= k < new@.len() && k < fresh@.len() ==> (#[trigger] new@[k]).id == fresh@[k],
{
    let ghost index0 = index_view(keys@, ids@);
    let ghost pid = project_id@;
    let mut new: Vec<Node> = Vec::new();
    let mut i: usize = 0;
    while i < found.len()
        invariant
            pid == project_id@,
            i <= found@.len(),
            keys@.len() == ids@.len(),
            index_view(keys@, ids@) == index0 + entries_of(new@),
            reconciled(index0, pid, root_id@, found@.take(i as int), new@),
            forall|k: int| 0 <= k < new@.len() && k < fresh@.len() ==> (#[trigger] new@[k]).id == fresh@[k],
            forall|p: Seq<char>|
                indexed(index_view(keys@, ids@), p) <==> (indexed(index0, p) || exists|j: int|
                    0 <= j < i && entry_path(found@[j]) == p),
        decreases found.len() - i,
    {
        let e = &found[i];
        let path = normalize_separators(e.relative_path.as_str());
        let ghost prefix = found@.take(i as int);
        let ghost next = found@.take(i as int + 1);
        let ghost sel = fresh_indices(index0, prefix);
        let ghost cur = index_view(keys@, ids@);
        assert(forall|p: Seq<char>|
            indexed(cur, p) <==> (indexed(index0, p) || exists|j: int|
                0 <= j < i && entry_path(found@[j]) == p));
        proof {
            assert(next.drop_last() =~= prefix);
            assert(next.last() == found@[i as int]);
            assert forall|j: int| 0 <= j < i implies next[j] == found@[j] && prefix[j] == found@[j] by {}
            assert((exists|j: int| 0 <= j < next.len() - 1 && entry_path(next[j]) == path@) <==> (
            exists|j: int| 0 <= j < i && entry_path(found@[j]) == path@)) by {
                if exists|j: int| 0 <= j < next.len() - 1 && entry_path(next[j]) == path@ {
                    let j = choose|j: int| 0 <= j < next.len() - 1 && entry_path(next[j]) == path@;
                    assert(entry_path(found@[j]) == path@);
                }
                if exists|j: int| 0 <= j < i && entry_path(found@[j]) == path@ {
                    let j = choose|j: int| 0 <= j < i && entry_path(found@[j]) == path@;
                    assert(entry_path(next[j]) == path@);
                }
            }
        }
        let pos = index_find(keys, ids, &path);
        if pos.is_none() {
            let parent = if e.parent_path.unicode_len() == 0 {
                String::from_str(root_id)
            } else {
                let pp = normalize_separators(e.parent_path.as_str());
                match index_find(keys, ids, &pp) {
                    Some(j) => ids[j].clone(),
                    None => String::from_str(root_id),
                }
            };
            let ghost parent_view = parent@;
            let id = if new.len() < fresh.len() {
                fresh[new.len()].clone()
            } else {
                String::new()
            };
            let node = make_node(e, project_id, parent, id, path.clone());
            let ghost old_new = new@;
            keys.push(path);
            ids.push(node.id.clone());
            new.push(node);
            proof {
                assert forall|k: int| 0 <= k < new@.len() && k < fresh@.len() implies (
                #[trigger] new@[k]).id == fresh@[k] by {
                    if k < old_new.len() {
                        assert(new@[k] == old_new[k]);
                    }
                }
                assert(!indexed(cur, path@));
                assert(!indexed(index0, path@));
                assert(!(exists|j: int| 0 <= j < i && entry_path(found@[j]) == path@));
                assert(entry_path(next.last()) == path@);
                assert(fresh_indices(index0, next) == sel.push(i as int));
                lemma_normalized_idempotent(e.relative_path@);
                assert(index_entry(node) == (path@, node.id@));
                assert(entries_of(new@) =~= entries_of(old_new).push(index_entry(node)));
                assert(index_view(keys@, ids@) =~= cur.push((path@, node.id@)));
                assert(new@.take(old_new.len() as int) =~= old_new);
                assert(parent_view == parent_for(cur, root_id@, e.parent_path@));
                assert forall|k: int| 0 <= k < new@.len() implies node_for(
                    #[trigger] new@[k],
                    found@.take(i as int + 1)[fresh_indices(index0, found@.take(i as int + 1))[k]],
                    pid,
                    parent_for(
                        index0 + entries_of(new@.take(k)),
                        root_id@,
                        found@.take(i as int + 1)[fresh_indices(
                            index0,
                            found@.take(i as int + 1),
                        )[k]].parent_path@,
                    ),
                ) by {
                    if k < old_new.len() {
                        assert(new@.take(k) =~= old_new.take(k));
                        assert(new@[k] == old_new[k]);
                        assert(0 <= sel[k] < i) by {
                            lemma_fresh_bounds(index0, prefix);
                        }
                    } else {
                        assert(new@.take(k) =~= old_new);
                    }
                }
                let ix = index_view(keys@, ids@);
                assert forall|p: Seq<char>|
                    indexed(ix, p) <==> (indexed(index0, p) || exists|j: int|
                        0 <= j < i + 1 && entry_path(found@[j]) == p) by {
                    assert(indexed(cur, p) <==> (indexed(index0, p) || exists|j: int|
                        0 <= j < i && entry_path(found@[j]) == p));
                    if indexed(ix, p) {
                        let q = choose|q: int| 0 <= q < ix.len() && ix[q].0 == p;
                        if q < cur.len() {
                            assert(cur[q] == ix[q]);
                            assert(indexed(cur, p));
                        } else {
                            assert(p == path@);
                        }
                    }
                    if indexed(cur, p) {
                        let q = choose|q: int| 0 <= q < cur.len() && cur[q].0 == p;
                        assert(ix[q] == cur[q]);
                    }
                    if p == path@ {
                        assert(ix[cur.len() as int].0 == p);
                        assert(entry_path(found@[i as int]) == p);
                    }
                    if exists|j: int| 0 <= j < i + 1 && entry_path(found@[j]) == p {
                        let j = choose|j: int| 0 <= j < i + 1 && entry_path(found@[j]) == p;
                        if j == i {
                            assert(p == path@);
                        } else {
                            assert(exists|j: int| 0 <= j < i && entry_path(found@[j]) == p);
                        }
                    }
                    if exists|j: int| 0 <= j < i && entry_path(found@[j]) == p {
                        let j = choose|j: int| 0 <= j < i && entry_path(found@[j]) == p;
                        assert(0 <= j < i + 1 && entry_path(found@[j]) == p);
                    }
                }
            }
        } else {
            proof {
                assert(indexed(cur, path@));
                assert(indexed(index0, path@) || exists|j: int|
                    0 <= j < i && entry_path(found@[j]) == path@);
                assert(entry_path(next.last()) == path@);
                assert(fresh_indices(index0, next) == sel);
                assert forall|p: Seq<char>|
                    indexed(index_view(keys@, ids@), p) <==> (indexed(index0, p) || exists|j: int|
                        0 <= j < i + 1 && entry_path(found@[j]) == p) by {
                    assert(indexed(cur, p) <==> (indexed(index0, p) || exists|j: int|
                        0 <= j < i && entry_path(found@[j]) == p));
                    if p == path@ {
                        assert(entry_path(found@[i as int]) == p);
                    } else {
                        if exists|j: int| 0 <= j < i + 1 && entry_path(found@[j]) == p {
                            let j = choose|j: int| 0 <= j < i + 1 && entry_path(found@[j]) == p;
                            assert(j < i);
                        }
                        if exists|j: int| 0 <= j < i && entry_path(found@[j]) == p {
                            let j = choose|j: int| 0 <= j < i && entry_path(found@[j]) == p;
                            assert(0 <= j < i + 1 && entry_path(found@[j]) == p);
                        }
                    }
                }
                assert forall|k: int| 0 <= k < new@.len() implies node_for(
                    #[trigger] new@[k],
                    found@.take(i as int + 1)[fresh_indices(index0, found@.take(i as int + 1))[k]],
                    pid,
                    parent_for(
                        index0 + entries_of(new@.take(k)),
                        root_id@,
                        found@.take(i as int + 1)[fresh_indices(
                            index0,
                            found@.take(i as int + 1),
                        )[k]].parent_path@,
                    ),
                ) by {
                    assert(0 <= sel[k] < i) by {
                        lemma_fresh_bounds(index0, prefix);
                    }
                }
            }
        }
        i += 1;
    }
    assert(found@.take(found@.len() as int) =~= found@);
    new
}

proof fn lemma_fresh_bounds(index0: Seq<(Seq<char>, Seq<char>)>, found: Seq<ScanEntry>)
    ensures
        forall|k: int|
            0 <= k < fresh_indices(index0, found).len() ==> 0 <= #[trigger] fresh_indices(
                index0,
                found,
            )[k] < found.len(),
    decreases found.len(),
{
    if found.len() > 0 {
        let prev = fresh_indices(index0, found.drop_last());
        lemma_fresh_bounds(index0, found.drop_last());
        assert forall|k: int| 0 <= k < prev.len() implies 0 <= #[trigger] prev[k] < found.len() - 1 by {}
        let cur = fresh_indices(index0, found);
        assert forall|k: int| 0 <= k < cur.len() implies 0 <= #[trigger] cur[k] < found.len() by {
            if k < prev.len() {
                assert(cur[k] == prev[k]);
            }
        }
    }
}


proof fn lemma_fresh_covers(index0: Seq<(Seq<char>, Seq<char>)>, found: Seq<ScanEntry>)
    ensures
        forall|j: int|
            0 <= j < found.len() ==> indexed(index0, #[trigger] entry_path(found[j])) || exists|k: int|
                0 <= k < fresh_indices(index0, found).len() && entry_path(
                    found[fresh_indices(index0, found)[k]],
                ) == entry_path(found[j]),
    decreases found.len(),
{
    if found.len() > 0 {
        let last = found.len() - 1;
        let rest = found.drop_last();
        let prev = fresh_indices(index0, rest);
        let sel = fresh_indices(index0, found);
        lemma_fresh_covers(index0, rest);
        lemma_fresh_bounds(index0, rest);
        assert forall|k: int| 0 <= k < prev.len() implies sel[k] == prev[k] && found[prev[k]]
            == rest[prev[k]] by {}
        assert forall|j: int| 0 <= j < found.len() implies indexed(
            index0,
            #[trigger] entry_path(found[j]),
        ) || exists|k: int| 0 <= k < sel.len() && entry_path(found[sel[k]]) == entry_path(found[j]) by {
            if j < last {
                assert(found[j] == rest[j]);
                if !indexed(index0, entry_path(found[j])) {
                    let k = choose|k: int|
                        0 <= k < prev.len() && entry_path(rest[prev[k]]) == entry_path(rest[j]);
                    assert(entry_path(found[sel[k]]) == entry_path(found[j]));
                }
            } else {
                let p = entry_path(found[j]);
                if !indexed(index0, p) {
                    if exists|i: int| 0 <= i < last && entry_path(found[i]) == p {
                        let i = choose|i: int| 0 <= i < last && entry_path(found[i]) == p;
                        assert(found[i] == rest[i]);
                        assert(indexed(index0, entry_path(rest[i])) || exists|k: int|
                            0 <= k < prev.len() && entry_path(rest[prev[k]]) == entry_path(
                                rest[i],
                            ));
                        let k = choose|k: int|
                            0 <= k < prev.len() && entry_path(rest[prev[k]]) == entry_path(
                                rest[i],
                            );
                        assert(entry_path(found[sel[k]]) == p);
                    } else {
                        assert(sel == prev.push(last));
                        assert(sel[prev.len() as int] == last);
                    }
                }
            }
        }
    }
}

proof fn lemma_fresh_distinct(index0: Seq<(Seq<char>, Seq<char>)>, found: Seq<ScanEntry>)
    ensures
        forall|k: int|
            0 <= k < fresh_indices(index0, found).len() ==> !indexed(
                index0,
                entry_path(found[#[trigger] fresh_indices(index0, found)[k]]),
            ),
        forall|k1: int, k2: int|
            0 <= k1 < k2 < fresh_indices(index0, found).len() ==> fresh_indices(index0, found)[k1]
                < fresh_indices(index0, found)[k2] && entry_path(
                found[fresh_indices(index0, found)[k1]],
            ) != entry_path(found[fresh_indices(index0, found)[k2]]),
    decreases found.len(),
{
    lemma_fresh_bounds(index0, found);
    if found.len() > 0 {
        let last = found.len() - 1;
        let rest = found.drop_last();
        let prev = fresh_indices(index0, rest);
        let sel = fresh_indices(index0, found);
        lemma_fresh_distinct(index0, rest);
        lemma_fresh_bounds(index0, rest);
        assert forall|k: int| 0 <= k < prev.len() implies sel[k] == prev[k] && found[prev[k]]
            == rest[prev[k]] && prev[k] < last by {}
        if sel.len() > prev.len() {
            assert(sel == prev.push(last));
            assert forall|k1: int, k2: int| 0 <= k1 < k2 < sel.len() implies sel[k1] < sel[k2]
                && entry_path(found[sel[k1]]) != entry_path(found[sel[k2]]) by {
                if k2 == prev.len() {
                    assert(sel[k1] < last);
                    assert(!(exists|j: int|
                        0 <= j < last && entry_path(found[j]) == entry_path(found[last])));
                }
            }
        }
    }
}

proof fn lemma_fresh_empty(index: Seq<(Seq<char>, Seq<char>)>, found: Seq<ScanEntry>)
    requires
        forall|j: int| 0 <= j < found.len() ==> indexed(index, #[trigger] entry_path(found[j])),
    ensures
        fresh_indices(index, found).len() == 0,
    decreases found.len(),
{
    if found.len() > 0 {
        let rest = found.drop_last();
        assert forall|j: int| 0 <= j < rest.len() implies indexed(
            index,
            #[trigger] entry_path(rest[j]),
        ) by {
            assert(rest[j] == found[j]);
        }
        lemma_fresh_empty(index, rest);
        assert(indexed(index, entry_path(found[found.len() - 1])));
    }
}

proof fn lemma_index_append(
    nodes: Seq<Node>,
    pid: Seq<char>,
    root_id: Seq<char>,
    found: Seq<ScanEntry>,
    new: Seq<Node>,
)
    requires
        reconciled(path_index(nodes, pid), pid, root_id, found, new),
    ensures
        path_index(nodes + new, pid) == path_index(nodes, pid) + entries_of(new),
{
    let f = |n: Node| tracks(n, pid);
    let g = |n: Node| index_entry(n);
    assert forall|k: int| 0 <= k < new.len() implies f(new[k]) by {
        assert(node_for(
            new[k],
            found[fresh_indices(path_index(nodes, pid), found)[k]],
            pid,
            parent_for(
                path_index(nodes, pid) + entries_of(new.take(k)),
                root_id,
                found[fresh_indices(path_index(nodes, pid), found)[k]].parent_path@,
            ),
        ));
    }
    lemma_filter_all(new, f);
    Seq::filter_distributes_over_add(nodes, new, f);
    assert((nodes.filter(f) + new).map_values(g) =~= nodes.filter(f).map_values(g)
        + new.map_values(g));
}

proof fn lemma_filter_all(s: Seq<Node>, f: spec_fn(Node) -> bool)
    requires
        forall|k: int| 0 <= k < s.len() ==> f(#[trigger] s[k]),
    ensures
        s.filter(f) == s,
    decreases s.len(),
{
    reveal(Seq::filter);
    if s.len() > 0 {
        lemma_filter_all(s.drop_last(), f);
        assert(s.drop_last().push(s.last()) =~= s);
    }
}

proof fn lemma_new_paths(
    index0: Seq<(Seq<char>, Seq<char>)>,
    pid: Seq<char>,
    root_id: Seq<char>,
    found: Seq<ScanEntry>,
    new: Seq<Node>,
)
    requires
        reconciled(index0, pid, root_id, found, new),
    ensures
        forall|k: int|
            0 <= k < new.len() ==> (#[trigger] entries_of(new)[k]).0 == entry_path(
                found[fresh_indices(index0, found)[k]],
            ) && new[k].file_path->0@ == entry_path(found[fresh_indices(index0, found)[k]]),
{
    let sel = fresh_indices(index0, found);
    assert forall|k: int| 0 <= k < new.len() implies (#[trigger] entries_of(new)[k]).0
        == entry_path(found[sel[k]]) && new[k].file_path->0@ == entry_path(found[sel[k]]) by {
        assert(node_for(
            new[k],
            found[sel[k]],
            pid,
            parent_for(index0 + entries_of(new.take(k)), root_id, found[sel[k]].parent_path@),
        ));
        lemma_normalized_idempotent(found[sel[k]].relative_path@);
    }
}

/// Syncing twice in a row against an unchanged directory: the second sync
/// creates no node.
pub proof fn sync_twice_adds_nothing(
    nodes: Seq<Node>,
    pid: Seq<char>,
    root_id: Seq<char>,
    next_root_id: Seq<char>,
    found: Seq<ScanEntry>,
    first: Seq<Node>,
    second: Seq<Node>,
)
    requires
        reconciled(path_index(nodes, pid), pid, root_id, found, first),
        reconciled(path_index(nodes + first, pid), pid, next_root_id, found, second),
    ensures
        second.len() == 0,
{
    let index0 = path_index(nodes, pid);
    let index1 = path_index(nodes + first, pid);
    let sel = fresh_indices(index0, found);
    lemma_index_append(nodes, pid, root_id, found, first);
    lemma_fresh_covers(index0, found);
    lemma_new_paths(index0, pid, root_id, found, first);
    assert forall|j: int| 0 <= j < found.len() implies indexed(
        index1,
        #[trigger] entry_path(found[j]),
    ) by {
        let p = entry_path(found[j]);
        if indexed(index0, p) {
            let i = choose|i: int| 0 <= i < index0.len() && index0[i].0 == p;
            assert(index1[i] == index0[i]);
        } else {
            let k = choose|k: int| 0 <= k < sel.len() && entry_path(found[sel[k]]) == p;
            assert(index1[index0.len() + k] == entries_of(first)[k]);
        }
    }
    lemma_fresh_empty(index1, found);
}

/// Each sync keeps the tracked paths of a project unique, so no sequence of
/// syncs, with files created on disk between them, leads to two nodes of one
/// project sharing a normalized file path.
pub proof fn sync_keeps_paths_unique(
    nodes: Seq<Node>,
    pid: Seq<char>,
    root_id: Seq<char>,
    found: Seq<ScanEntry>,
    new: Seq<Node>,
)
    requires
        paths_unique(nodes, pid),
        reconciled(path_index(nodes, pid), pid, root_id, found, new),
    ensures
        paths_unique(nodes + new, pid),
{
    let index0 = path_index(nodes, pid);
    let index1 = path_index(nodes + new, pid);
    let added = entries_of(new);
    let sel = fresh_indices(index0, found);
    lemma_index_append(nodes, pid, root_id, found, new);
    lemma_fresh_distinct(index0, found);
    lemma_new_paths(index0, pid, root_id, found, new);
    assert forall|i: int, j: int| 0 <= i < j < index1.len() implies index1[i].0 != index1[j].0 by {
        let n0 = index0.len() as int;
        if j < n0 {
            assert(index1[i] == index0[i] && index1[j] == index0[j]);
        } else if i < n0 {
            assert(index1[i] == index0[i]);
            assert(index1[j] == added[j - n0]);
            assert(!indexed(index0, entry_path(found[sel[j - n0]])));
        } else {
            assert(index1[i] == added[i - n0]);
            assert(index1[j] == added[j - n0]);
        }
    }
}

proof fn lemma_new_not_root(
    pid: Seq<char>,
    root_id: Seq<char>,
    found: Seq<ScanEntry>,
    new: Seq<Node>,
)
    requires
        names_visible(found),
        reconciled(Seq::empty(), pid, root_id, found, new),
    ensures
        forall|k: int| 0 <= k < new.len() ==> !(#[trigger] new[k]).is_root_marker(),
{
    let index0 = Seq::<(Seq<char>, Seq<char>)>::empty();
    let sel = fresh_indices(index0, found);
    lemma_fresh_bounds(index0, found);
    reveal_strlit("__PROJECT_ROOT__");
    reveal_strlit("__");
    assert forall|k: int| 0 <= k < new.len() implies !(#[trigger] new[k]).is_root_marker() by {
        let e = found[sel[k]];
        assert(node_for(
            new[k],
            e,
            pid,
            parent_for(index0 + entries_of(new.take(k)), root_id, e.parent_path@),
        ));
        assert(!is_excluded_name(e.name@));
        if new[k].name@ == root_sentinel() {
            assert(e.name@.subrange(0, 2) =~= "__"@);
        }
    }
}

/// The nodes after the first `t` syncs of a run, each appending its new nodes.
pub open spec fn after_syncs(start: Seq<Node>, news: Seq<Seq<Node>>, t: int) -> Seq<Node>
    decreases t,
{
    if t <= 0 {
        start
    } else {
        after_syncs(start, news, t - 1) + news[t - 1]
    }
}

/// Over any run of syncs, each against whatever the directory held at that
/// moment, a project whose tracked paths were unique keeps them unique.
pub proof fn sync_runs_keep_paths_unique(
    start: Seq<Node>,
    pid: Seq<char>,
    roots: Seq<Seq<char>>,
    founds: Seq<Seq<ScanEntry>>,
    news: Seq<Seq<Node>>,
)
    requires
        paths_unique(start, pid),
        roots.len() == news.len(),
        founds.len() == news.len(),
        forall|t: int|
            0 <= t < news.len() ==> reconciled(
                path_index(after_syncs(start, news, t), pid),
                pid,
                roots[t],
                founds[t],
                #[trigger] news[t],
            ),
    ensures
        paths_unique(after_syncs(start, news, news.len() as int), pid),
    decreases news.len(),
{
    if news.len() > 0 {
        let last = news.len() - 1;
        let shorter = news.drop_last();
        assert forall|t: int| 0 <= t <= last implies after_syncs(start, shorter, t) == after_syncs(
            start,
            news,
            t,
        ) by {
            lemma_after_syncs_prefix(start, news, shorter, t);
        }
        assert forall|t: int| 0 <= t < shorter.len() implies reconciled(
            path_index(after_syncs(start, shorter, t), pid),
            pid,
            roots.drop_last()[t],
            founds.drop_last()[t],
            #[trigger] shorter[t],
        ) by {
            assert(news[t] == shorter[t]);
        }
        sync_runs_keep_paths_unique(start, pid, roots.drop_last(), founds.drop_last(), shorter);
        sync_keeps_paths_unique(
            after_syncs(start, news, last),
            pid,
            roots[last],
            founds[last],
            news[last],
        );
    }
}

proof fn lemma_after_syncs_prefix(
    start: Seq<Node>,
    news: Seq<Seq<Node>>,
    shorter: Seq<Seq<Node>>,
    t: int,
)
    requires
        0 <= t <= shorter.len(),
        shorter.len() <= news.len(),
        forall|k: int| 0 <= k < shorter.len() ==> shorter[k] == news[k],
    ensures
        after_syncs(start, shorter, t) == after_syncs(start, news, t),
    decreases t,
{
    if t > 0 {
        lemma_after_syncs_prefix(start, news, shorter, t - 1);
    }
}

/// After a rebuild the project's nodes other than its root markers carry
/// exactly the paths of the scan: every scanned path once placed, and nothing
/// else.
pub proof fn rebuild_mirrors_scan(
    nodes: Seq<Node>,
    pid: Seq<char>,
    root_id: Seq<char>,
    found: Seq<ScanEntry>,
    new: Seq<Node>,
)
    requires
        names_visible(found),
        reconciled(Seq::empty(), pid, root_id, found, new),
    ensures
        content_paths(nodes.filter(|n: Node| kept_by_rebuild(n, pid)) + new, pid) =~= scan_paths(
            found,
        ),
{
    let kept = nodes.filter(|n: Node| kept_by_rebuild(n, pid));
    let all = kept + new;
    let index0 = Seq::<(Seq<char>, Seq<char>)>::empty();
    let sel = fresh_indices(index0, found);
    lemma_fresh_covers(index0, found);
    lemma_fresh_bounds(index0, found);
    lemma_new_paths(index0, pid, root_id, found, new);
    lemma_new_not_root(pid, root_id, found, new);
    assert forall|p: Seq<char>| content_paths(all, pid).contains(p) implies scan_paths(
        found,
    ).contains(p) by {
        let i = choose|i: int|
            0 <= i < all.len() && all[i].project_id@ == pid && !all[i].is_root_marker()
                && all[i].file_path is Some && all[i].file_path->0@ == p;
        if i < kept.len() {
            nodes.lemma_filter_pred(|n: Node| kept_by_rebuild(n, pid), i);
            assert(all[i] == kept[i]);
        } else {
            let k = i - kept.len();
            assert(all[i] == new[k]);
            assert(entry_path(found[sel[k]]) == p);
        }
    }
    assert forall|p: Seq<char>| scan_paths(found).contains(p) implies content_paths(
        all,
        pid,
    ).contains(p) by {
        let j = choose|j: int| 0 <= j < found.len() && entry_path(found[j]) == p;
        assert(!indexed(index0, entry_path(found[j])));
        let k = choose|k: int| 0 <= k < sel.len() && entry_path(found[sel[k]]) == p;
        assert(all[kept.len() + k] == new[k]);
        assert(!new[k].is_root_marker());
        assert(new[k].project_id@ == pid);
    }
}

/// Syncing a folder and a file inside it, neither tracked yet, creates exactly
/// two nodes: the folder under the project's root, and the file under the
/// folder's new node, each at its own path.
pub proof fn sync_folder_then_file(
    index0: Seq<(Seq<char>, Seq<char>)>,
    pid: Seq<char>,
    root_id: Seq<char>,
    found: Seq<ScanEntry>,
    new: Seq<Node>,
)
    requires
        reconciled(index0, pid, root_id, found, new),
        found.len() == 2,
        found[0].is_folder,
        found[0].parent_path@.len() == 0,
        !found[1].is_folder,
        found[1].parent_path@ == entry_path(found[0]),
        entry_path(found[0]).len() > 0,
        entry_path(found[0]) != entry_path(found[1]),
        !indexed(index0, entry_path(found[0])),
        !indexed(index0, entry_path(found[1])),
    ensures
        new.len() == 2,
        new[0].node_type@ == "folder"@ && new[1].node_type@ == "file"@,
        new[0].parent_id == Some(new[0].parent_id->0) && new[0].parent_id->0@ == root_id,
        new[1].parent_id == Some(new[1].parent_id->0) && new[1].parent_id->0@ == new[0].id@,
        new[0].file_path->0@ == entry_path(found[0]),
        new[1].file_path->0@ == entry_path(found[1]),
{
    let first = found.drop_last();
    assert(first.drop_last() =~= Seq::<ScanEntry>::empty());
    assert(first.last() == found[0]);
    assert(first.len() == 1);
    assert(fresh_indices(index0, first.drop_last()) =~= Seq::<int>::empty());
    assert(!indexed(index0, entry_path(first.last())));
    assert(!(exists|j: int| 0 <= j < first.len() - 1 && entry_path(#[trigger] first[j]) == entry_path(first.last())));
    assert(fresh_indices(index0, first) =~= Seq::<int>::empty().push(0));
    assert(fresh_indices(index0, first) =~= seq![0int]);
    assert(!(exists|j: int| 0 <= j < 1 && entry_path(#[trigger] found[j]) == entry_path(found[1])));
    assert(fresh_indices(index0, found) =~= seq![0int, 1int]);
    let sel = fresh_indices(index0, found);
    assert(node_for(
        new[0],
        found[0],
        pid,
        parent_for(index0 + entries_of(new.take(0)), root_id, found[0].parent_path@),
    ));
    assert(node_for(
        new[1],
        found[1],
        pid,
        parent_for(index0 + entries_of(new.take(1)), root_id, found[1].parent_path@),
    ));
    let index = index0 + entries_of(new.take(1));
    let p = entry_path(found[0]);
    lemma_normalized_idempotent(found[0].relative_path@);
    assert(normalized(found[1].parent_path@) == p);
    assert(index[index0.len() as int] == index_entry(new[0]));
    assert(index[index0.len() as int].0 == p);
    assert forall|j: int| 0 <= j < index0.len() implies index[j].0 != p by {
        assert(index[j] == index0[j]);
    }
    lemma_lookup(index, p, index0.len() as int);
}

/// Whether the first `m` identifiers differ from each other and from every
/// stored node's.
pub fn check_ids(ids: &Vec<String>, m: usize, nodes: &Vec<Node>) -> (r: bool)
    requires
        m <= ids@.len(),
    ensures
        r == ids_fresh(ids@, m as int, nodes@),
{
    let mut i: usize = 0;
    while i < m
        invariant
            m <= ids@.len(),
            i <= m,
            forall|a: int, b: int| 0 <= a < i && a < b < m ==> ids@[a]@ != ids@[b]@,
            forall|a: int, j: int| 0 <= a < i && 0 <= j < nodes@.len() ==> ids@[a]@ != nodes@[j].id@,
        decreases m - i,
    {
        let mut b: usize = i + 1;
        while b < m
            invariant
                m <= ids@.len(),
                i < m,
                i + 1 <= b <= m,
                forall|q: int| i < q < b ==> ids@[i as int]@ != ids@[q]@,
            decreases m - b,
        {
            if ids[i] == ids[b] {
                return false;
            }
            b += 1;
        }
        let mut j: usize = 0;
        while j < nodes.len()
            invariant
                m <= ids@.len(),
                i < m,
                j <= nodes@.len(),
                forall|q: int| 0 <= q < j ==> ids@[i as int]@ != nodes@[q].id@,
            decreases nodes.len() - j,
        {
            if ids[i] == nodes[j].id {
                return false;
            }
            j += 1;
        }
        i += 1;
    }
    true
}

/// Appends copies of `extra` to `nodes`.
fn append_nodes(nodes: &mut Vec<Node>, extra: &Vec<Node>)
    ensures
        final(nodes)@ == old(nodes)@ + extra@,
{
    let ghost start = nodes@;
    let mut i: usize = 0;
    while i < extra.len()
        invariant
            i <= extra@.len(),
            nodes@ == start + extra@.take(i as int),
        decreases extra.len() - i,
    {
        nodes.push(extra[i].duplicate());
        i += 1;
        assert(nodes@ =~= start + extra@.take(i as int));
    }
    assert(extra@.take(extra@.len() as int) =~= extra@);
}

/// The number of identifiers a sync of `found` into the project needs: one per
/// node it creates. Fails when the project has no root marker.
pub fn ids_needed_for_sync(data: &ProjectData, project_id: &str, found: &Vec<ScanEntry>) -> (r:
    Result<usize, ReconcileError>)
    ensures
        root_index(data.nodes@, project_id@) < 0 ==> r == Err::<usize, ReconcileError>(
            ReconcileError::RootNotFound,
        ),
        root_index(data.nodes@, project_id@) >= 0 ==> r is Ok && r->Ok_0 == sync_count(
            data.nodes@,
            project_id@,
            found@,
        ),
{
    match find_root(&data.nodes, project_id) {
        None => Err(ReconcileError::RootNotFound),
        Some(k) => {
            let (mut keys, mut ids) = build_index(&data.nodes, project_id);
            let none: Vec<String> = Vec::new();
            let new = merge_entries(&mut keys, &mut ids, project_id, data.nodes[k].id.as_str(), found, &none);
            Ok(new.len())
        },
    }
}

/// The number of identifiers a rebuild of the project from `found` needs.
/// Fails when the project has no root marker.
pub fn ids_needed_for_rebuild(data: &ProjectData, project_id: &str, found: &Vec<ScanEntry>) -> (r:
    Result<usize, ReconcileError>)
    ensures
        root_index(data.nodes@, project_id@) < 0 ==> r == Err::<usize, ReconcileError>(
            ReconcileError::RootNotFound,
        ),
        root_index(data.nodes@, project_id@) >= 0 ==> r is Ok && r->Ok_0 == rebuild_count(found@),
{
    match find_root(&data.nodes, project_id) {
        None => Err(ReconcileError::RootNotFound),
        Some(k) => {
            let mut keys: Vec<String> = Vec::new();
            let mut ids: Vec<String> = Vec::new();
            assert(index_view(keys@, ids@) =~= Seq::empty());
            let none: Vec<String> = Vec::new();
            let new = merge_entries(&mut keys, &mut ids, project_id, data.nodes[k].id.as_str(), found, &none);
            Ok(new.len())
        },
    }
}

/// Incremental sync: every found entry whose normalized path no node of the
/// project tracks yet gets a new node, placed under the node at its parent
/// path (the project's root for top-level entries); the new nodes are
/// appended and returned. The `k`-th new node takes the identifier `ids[k]`.
/// Existing nodes are neither removed nor changed. Fails, changing nothing,
/// when the project has no root marker, when fewer identifiers are supplied
/// than nodes are created, or when one of those identifiers repeats or is
/// already taken.
pub fn sync_project(
    data: &mut ProjectData,
    project_id: &str,
    found: &Vec<ScanEntry>,
    ids: &Vec<String>,
) -> (r: Result<Vec<Node>, ReconcileError>)
    ensures
        root_index(old(data).nodes@, project_id@) < 0 ==> r is Err && r->Err_0
            == ReconcileError::RootNotFound,
        root_index(old(data).nodes@, project_id@) >= 0 && ids@.len() < sync_count(
            old(data).nodes@,
            project_id@,
            found@,
        ) ==> r is Err && r->Err_0 == ReconcileError::TooFewIds,
        root_index(old(data).nodes@, project_id@) >= 0 && ids@.len() >= sync_count(
            old(data).nodes@,
            project_id@,
            found@,
        ) ==> (r is Err <==> !ids_fresh(
            ids@,
            sync_count(old(data).nodes@, project_id@, found@),
            old(data).nodes@,
        )) && (r is Err ==> r->Err_0 == ReconcileError::IdInUse),
        r is Err ==> *final(data) == *old(data),
        r is Ok ==> final(data).projects == old(data).projects && final(data).clients == old(
            data,
        ).clients && final(data).nodes@ == old(data).nodes@ + r->Ok_0@ && reconciled(
            path_index(old(data).nodes@, project_id@),
            project_id@,
            old(data).nodes@[root_index(old(data).nodes@, project_id@)].id@,
            found@,
            r->Ok_0@,
        ) && (forall|k: int| 0 <= k < r->Ok_0@.len() ==> (#[trigger] r->Ok_0@[k]).id == ids@[k])
            && new_ids_fresh(r->Ok_0@, old(data).nodes@),
        r is Ok && paths_unique(old(data).nodes@, project_id@) ==> paths_unique(
            final(data).nodes@,
            project_id@,
        ),
{
    match find_root(&data.nodes, project_id) {
        None => Err(ReconcileError::RootNotFound),
        Some(k) => {
            let root_id = data.nodes[k].id.clone();
            let (mut keys, mut index_ids) = build_index(&data.nodes, project_id);
            let new = merge_entries(
                &mut keys,
                &mut index_ids,
                project_id,
                root_id.as_str(),
                found,
                ids,
            );
            if new.len() > ids.len() {
                return Err(ReconcileError::TooFewIds);
            }
            if !check_ids(ids, new.len(), &data.nodes) {
                return Err(ReconcileError::IdInUse);
            }
            let ghost nodes0 = data.nodes@;
            append_nodes(&mut data.nodes, &new);
            proof {
                if paths_unique(nodes0, project_id@) {
                    sync_keeps_paths_unique(nodes0, project_id@, root_id@, found@, new@);
                }
                lemma_new_ids_fresh(new@, ids@, nodes0);
            }
            Ok(new)
        },
    }
}

proof fn lemma_new_ids_fresh(new: Seq<Node>, ids: Seq<String>, nodes: Seq<Node>)
    requires
        new.len() <= ids.len(),
        forall|k: int| 0 <= k < new.len() ==> (#[trigger] new[k]).id == ids[k],
        ids_fresh(ids, new.len() as int, nodes),
    ensures
        new_ids_fresh(new, nodes),
{
    assert forall|a: int, b: int| 0 <= a < b < new.len() implies new[a].id@ != new[b].id@ by {
        assert(new[a].id == ids[a] && new[b].id == ids[b]);
    }
    assert forall|a: int, j: int| 0 <= a < new.len() && 0 <= j < nodes.len() implies new[a].id@
        != nodes[j].id@ by {
        assert(new[a].id == ids[a]);
    }
}

/// Full rebuild: every node of the project but its root markers is dropped,
/// and every found entry gets a new node as in a sync against an empty set of
/// tracked paths; the `k`-th new node takes the identifier `ids[k]`. Nodes of
/// other projects stay as they are. Fails, changing nothing, when the project
/// has no root marker, when fewer identifiers are supplied than nodes are
/// created, or when one of those identifiers repeats or is taken by a node of
/// the dataset as it stood.
pub fn rebuild_project(
    data: &mut ProjectData,
    project_id: &str,
    found: &Vec<ScanEntry>,
    ids: &Vec<String>,
) -> (r: Result<Vec<Node>, ReconcileError>)
    ensures
        root_index(old(data).nodes@, project_id@) < 0 ==> r is Err && r->Err_0
            == ReconcileError::RootNotFound,
        root_index(old(data).nodes@, project_id@) >= 0 && ids@.len() < rebuild_count(found@)
            ==> r is Err && r->Err_0 == ReconcileError::TooFewIds,
        root_index(old(data).nodes@, project_id@) >= 0 && ids@.len() >= rebuild_count(found@) ==> (
        r is Err <==> !ids_fresh(ids@, rebuild_count(found@), old(data).nodes@)) && (r is Err
            ==> r->Err_0 == ReconcileError::IdInUse),
        r is Err ==> *final(data) == *old(data),
        r is Ok ==> final(data).projects == old(data).projects && final(data).clients == old(
            data,
        ).clients && final(data).nodes@ == old(data).nodes@.filter(
            |n: Node| kept_by_rebuild(n, project_id@),
        ) + r->Ok_0@ && reconciled(
            Seq::empty(),
            project_id@,
            old(data).nodes@[root_index(old(data).nodes@, project_id@)].id@,
            found@,
            r->Ok_0@,
        ) && (forall|k: int| 0 <= k < r->Ok_0@.len() ==> (#[trigger] r->Ok_0@[k]).id == ids@[k])
            && new_ids_fresh(r->Ok_0@, old(data).nodes@),
        r is Ok && names_visible(found@) ==> content_paths(final(data).nodes@, project_id@)
            == scan_paths(found@),
{
    match find_root(&data.nodes, project_id) {
        None => Err(ReconcileError::RootNotFound),
        Some(k) => {
            let root_id = data.nodes[k].id.clone();
            let ghost pid = project_id@;
            let mut keys: Vec<String> = Vec::new();
            let mut index_ids: Vec<String> = Vec::new();
            assert(index_view(keys@, index_ids@) =~= Seq::empty());
            let new = merge_entries(
                &mut keys,
                &mut index_ids,
                project_id,
                root_id.as_str(),
                found,
                ids,
            );
            if new.len() > ids.len() {
                return Err(ReconcileError::TooFewIds);
            }
            if !check_ids(ids, new.len(), &data.nodes) {
                return Err(ReconcileError::IdInUse);
            }
            let ghost nodes0 = data.nodes@;
            let mut kept: Vec<Node> = Vec::new();
            let mut i: usize = 0;
            while i < data.nodes.len()
                invariant
                    pid == project_id@,
                    i <= data.nodes@.len(),
                    kept@ == data.nodes@.take(i as int).filter(|n: Node| kept_by_rebuild(n, pid)),
                decreases data.nodes.len() - i,
            {
                let n = &data.nodes[i];
                proof {
                    reveal(Seq::filter);
                    assert(data.nodes@.take(i as int + 1).drop_last() =~= data.nodes@.take(
                        i as int,
                    ));
                    assert(data.nodes@.take(i as int + 1).last() == data.nodes@[i as int]);
                }
                if !str_eq(n.project_id.as_str(), project_id) || n.marks_root() {
                    kept.push(n.duplicate());
                }
                i += 1;
            }
            assert(data.nodes@.take(data.nodes@.len() as int) =~= data.nodes@);
            append_nodes(&mut kept, &new);
            data.nodes = kept;
            proof {
                if names_visible(found@) {
                    rebuild_mirrors_scan(nodes0, pid, root_id@, found@, new@);
                }
                lemma_new_ids_fresh(new@, ids@, nodes0);
            }
            Ok(new)
        },
    }
}

} // verus!
