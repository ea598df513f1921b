//! Composing a node's relative path from its chain of ancestors.
use vstd::prelude::*;
use vstd::string::*;
use crate::text::{chars_of, join_slash, join_with_slash, normalize_separators, normalized, str_eq};
use crate::types::{Node, root_sentinel};

verus! {

/// A parent reference that names no node: empty, or the root sentinel.
pub open spec fn is_top_ref(pid: Seq<char>) -> bool {
    pid.len() == 0 || pid == root_sentinel()
}

/// Index of the first node whose identifier is `id`, or -1.
pub open spec fn find_index(nodes: Seq<Node>, id: Seq<char>) -> int
    decreases nodes.len(),
{
    if nodes.len() == 0 {
        -1
    } else if nodes[0].id@ == id {
        0
    } else {
        let k = find_index(nodes.drop_first(), id);
        if k < 0 { -1 } else { k + 1 }
    }
}

/// Names of the ancestors reached from the parent reference `pid`, outermost
/// first. The walk stops at a top reference, at an unknown identifier, at a
/// root marker, and at a node it has already passed (`visited`).
pub open spec fn ancestor_names(nodes: Seq<Node>, pid: Seq<char>, visited: Seq<int>) -> Seq<
    Seq<char>,
>
    decreases nodes.len() - visited.len(),
{
    if visited.len() >= nodes.len() || is_top_ref(pid) {
        Seq::empty()
    } else {
        let k = find_index(nodes, pid);
        if k < 0 || visited.contains(k) || nodes[k].is_root_marker() {
            Seq::empty()
        } else {
            ancestor_names(nodes, nodes[k].parent_ref(), visited.push(k)).push(nodes[k].name@)
        }
    }
}

/// The relative path of an entry called `name` under the parent reference `pid`.
pub open spec fn composed_path(nodes: Seq<Node>, pid: Seq<char>, name: Seq<char>) -> Seq<char> {
    join_slash(ancestor_names(nodes, pid, Seq::empty()).push(name))
}

/// The relative path of the node at position `k`: its ancestors' names, then its
/// own. The node itself counts as visited, so a cycle back to it ends the walk.
pub open spec fn node_path(nodes: Seq<Node>, k: int) -> Seq<char> {
    join_slash(ancestor_names(nodes, nodes[k].parent_ref(), seq![k]).push(nodes[k].name@))
}

/// Positions of the ancestors whose names `ancestor_names` gives, in the same order.
pub open spec fn ancestor_indices(nodes: Seq<Node>, pid: Seq<char>, visited: Seq<int>) -> Seq<int>
    decreases nodes.len() - visited.len(),
{
    if visited.len() >= nodes.len() || is_top_ref(pid) {
        Seq::empty()
    } else {
        let k = find_index(nodes, pid);
        if k < 0 || visited.contains(k) || nodes[k].is_root_marker() {
            Seq::empty()
        } else {
            ancestor_indices(nodes, nodes[k].parent_ref(), visited.push(k)).push(k)
        }
    }
}

/// `s` has a `..` segment starting at position `i` (segments split at `/`).
pub open spec fn dotdot_at(s: Seq<char>, i: int) -> bool {
    &&& 0 <= i
    &&& i + 2 <= s.len()
    &&& s[i] == '.'
    &&& s[i + 1] == '.'
    &&& (i == 0 || s[i - 1] == '/')
    &&& (i + 2 == s.len() || s[i + 2] == '/')
}

/// A path that would leave the project directory once joined onto it: with
/// `\` read as `/`, it starts at `/`, names a drive (`x:`), or has a `..` segment.
pub open spec fn escapes(p: Seq<char>) -> bool {
    let q = normalized(p);
    (q.len() > 0 && q[0] == '/') || (q.len() >= 2 && q[1] == ':') || exists|i: int|
        dotdot_at(q, i)
}

/// The walk from `pid` ends within `k` hops: after at most `k` real ancestors
/// it meets a top reference, an unknown identifier or a root marker.
pub open spec fn reaches_top_within(nodes: Seq<Node>, pid: Seq<char>, k: nat) -> bool
    decreases k,
{
    let i = find_index(nodes, pid);
    is_top_ref(pid) || i < 0 || nodes[i].is_root_marker() || (k > 0 && reaches_top_within(
        nodes,
        nodes[i].parent_ref(),
        (k - 1) as nat,
    ))
}

proof fn lemma_find_index(nodes: Seq<Node>, id: Seq<char>, i: int)
    requires
        0 <= i <= nodes.len(),
        forall|j: int| 0 <= j < i ==> nodes[j].id@ != id,
    ensures
        i < nodes.len() && nodes[i].id@ == id ==> find_index(nodes, id) == i,
        i == nodes.len() ==> find_index(nodes, id) == -1,
    decreases i,
{
    if i > 0 {
        let rest = nodes.drop_first();
        assert forall|j: int| 0 <= j < i - 1 implies rest[j].id@ != id by {
            assert(rest[j] == nodes[j + 1]);
        }
        lemma_find_index(rest, id, i - 1);
    }
}

/// Index of the first node whose identifier is `id`.
pub fn find_node(nodes: &Vec<Node>, id: &str) -> (r: Option<usize>)
    ensures
        match r {
            Some(k) => k as int == find_index(nodes@, id@) && k < nodes@.len(),
            None => find_index(nodes@, id@) == -1,
        },
{
    let key = String::from_str(id);
    let mut i: usize = 0;
    while i < nodes.len()
        invariant
            key@ == id@,
            i <= nodes@.len(),
            forall|j: int| 0 <= j < i ==> nodes@[j].id@ != id@,
        decreases nodes.len() - i,
    {
        if nodes[i].id == key {
            proof {
                lemma_find_index(nodes@, id@, i as int);
            }
            return Some(i);
        }
        i += 1;
    }
    proof {
        lemma_find_index(nodes@, id@, i as int);
    }
    None
}

/// Whether a parent reference names no node.
pub fn is_top_reference(pid: &str) -> (r: bool)
    ensures
        r == is_top_ref(pid@),
{
    pid.unicode_len() == 0 || str_eq(pid, "__PROJECT_ROOT__")
}

/// The relative path, `/`-separated, of an entry called `name` whose parent
/// reference is `parent_id`: the names of its ancestors below the project root,
/// outermost first, then `name`. A revisited node ends the walk, so a cycle in
/// the parent references cannot make it loop.
pub fn resolve_path(nodes: &Vec<Node>, parent_id: &str, name: &str) -> (r: String)
    ensures
        r@ == composed_path(nodes@, parent_id@, name@),
{
    compose(nodes, parent_id, name, None)
}

/// The walk of `resolve_path`, with the node at `start`, when given, already
/// counted as visited.
fn compose(nodes: &Vec<Node>, parent_id: &str, name: &str, start: Option<usize>) -> (r: String)
    requires
        start matches Some(k) ==> k < nodes@.len(),
    ensures
        r@ == join_slash(
            ancestor_names(
                nodes@,
                parent_id@,
                match start {
                    Some(k) => seq![k as int],
                    None => Seq::empty(),
                },
            ).push(name@),
        ),
{
    let ghost visited0: Seq<int> = match start {
        Some(k) => seq![k as int],
        None => Seq::empty(),
    };
    let n = nodes.len();
    let mut parts: Vec<String> = Vec::new();
    parts.push(String::from_str(name));
    let mut seen: Vec<bool> = Vec::new();
    while seen.len() < n
        invariant
            seen@.len() <= n,
            forall|i: int| 0 <= i < seen@.len() ==> !seen@[i],
        decreases n - seen.len(),
    {
        seen.push(false);
    }
    let ghost mut visited: Seq<int> = Seq::empty();
    let mut steps: usize = 0;
    match start {
        Some(k) => {
            seen.set(k, true);
            steps = 1;
            proof {
                visited = seq![k as int];
                assert forall|i: int| 0 <= i < n implies (seen@[i] <==> visited.contains(i)) by {
                    if i == k {
                        assert(visited[0] == i);
                    }
                }
            }
        },
        None => {},
    }
    let mut cur: &str = parent_id;
    proof {
        assert(parts@.map_values(|p: String| p@) =~= seq![name@]);
        assert(Seq::<Seq<char>>::empty().push(name@) =~= seq![name@]);
    }
    loop
        invariant
            n == nodes@.len(),
            visited0 == (match start {
                Some(k) => seq![k as int],
                None => Seq::<int>::empty(),
            }),
            seen@.len() == n,
            steps as int == visited.len(),
            steps <= n,
            forall|i: int| 0 <= i < n ==> (seen@[i] <==> visited.contains(i)),
            ancestor_names(nodes@, parent_id@, visited0).push(name@) == ancestor_names(
                nodes@,
                cur@,
                visited,
            ) + parts@.map_values(|p: String| p@),
        ensures
            ancestor_names(nodes@, cur@, visited) =~= Seq::<Seq<char>>::empty(),
            ancestor_names(nodes@, parent_id@, visited0).push(name@) == ancestor_names(
                nodes@,
                cur@,
                visited,
            ) + parts@.map_values(|p: String| p@),
        decreases n - steps,
    {
        if steps >= n || is_top_reference(cur) {
            break;
        }
        let found = find_node(nodes, cur);
        match found {
            None => {
                break;
            },
            Some(k) => {
                if seen[k] || nodes[k].marks_root() {
                    break;
                }
                let ghost old_parts = parts@.map_values(|p: String| p@);
                let ghost old_visited = visited;
                let node = &nodes[k];
                parts.insert(0, node.name.clone());
                seen.set(k, true);
                proof {
                    visited = visited.push(k as int);
                    assert(parts@.map_values(|p: String| p@) =~= seq![node.name@] + old_parts);
                    assert forall|i: int| 0 <= i < n implies (seen@[i] <==> visited.contains(i)) by {
                        if i != k {
                            assert(visited.contains(i) <==> old_visited.contains(i)) by {
                                if visited.contains(i) {
                                    let j = choose|j: int| 0 <= j < visited.len() && visited[j] == i;
                                    if j < old_visited.len() {
                                        assert(old_visited[j] == i);
                                    }
                                }
                                if old_visited.contains(i) {
                                    let j = choose|j: int|
                                        0 <= j < old_visited.len() && old_visited[j] == i;
                                    assert(visited[j] == i);
                                }
                            }
                        } else {
                            assert(visited[visited.len() - 1] == i);
                        }
                    }
                }
                steps += 1;
                cur = match &node.parent_id {
                    Some(p) => p.as_str(),
                    None => "",
                };
                proof {
                    reveal_strlit("");
                    assert(cur@ =~= node.parent_ref());
                    let tail = ancestor_names(nodes@, cur@, visited);
                    assert(tail.push(node.name@) + old_parts =~= tail + (seq![node.name@]
                        + old_parts));
                }
            },
        }
    }
    proof {
        assert(ancestor_names(nodes@, parent_id@, visited0).push(name@) =~= parts@.map_values(
            |p: String| p@,
        ));
    }
    join_with_slash(&parts)
}

/// Whether a relative path would leave the project directory.
pub fn escapes_project(p: &str) -> (r: bool)
    ensures
        r == escapes(p@),
{
    let q = normalize_separators(p);
    let c = chars_of(q.as_str());
    let n = c.len();
    if n > 0 && c[0] == '/' {
        return true;
    }
    if n >= 2 && c[1] == ':' {
        return true;
    }
    let mut i: usize = 0;
    while i < n
        invariant
            c@ == normalized(p@),
            n == c@.len(),
            i <= n,
            forall|j: int| 0 <= j < i ==> !dotdot_at(c@, j),
        decreases n - i,
    {
        if i + 1 < n && c[i] == '.' && c[i + 1] == '.' && (i == 0 || c[i - 1] == '/') && (i + 2 == n || c[i
            + 2] == '/') {
            assert(dotdot_at(c@, i as int));
            return true;
        }
        i += 1;
    }
    false
}

/// The relative path of the node with identifier `node_id`: `file_path` itself
/// when it is given (neither empty nor the root sentinel), else the path
/// composed from the node's ancestors. Fails when `file_path` is not given and
/// no node has that identifier, and when the path would leave the project
/// directory (absolute, a drive, or a `..` segment).
pub fn resolve_file_path(nodes: &Vec<Node>, node_id: &str, file_path: &str) -> (r: Result<
    String,
    String,
>)
    ensures
        !is_top_ref(file_path@) && !escapes(file_path@) ==> r is Ok && r->Ok_0@ == file_path@,
        !is_top_ref(file_path@) && escapes(file_path@) ==> r is Err && r->Err_0@
            == "Path escapes the project directory"@,
        is_top_ref(file_path@) && find_index(nodes@, node_id@) < 0 ==> r is Err && r->Err_0@
            == "Node not found"@,
        is_top_ref(file_path@) && find_index(nodes@, node_id@) >= 0 && !escapes(
            node_path(nodes@, find_index(nodes@, node_id@)),
        ) ==> r is Ok && r->Ok_0@ == node_path(nodes@, find_index(nodes@, node_id@)),
        is_top_ref(file_path@) && find_index(nodes@, node_id@) >= 0 && escapes(
            node_path(nodes@, find_index(nodes@, node_id@)),
        ) ==> r is Err && r->Err_0@ == "Path escapes the project directory"@,
        r matches Ok(p) ==> !escapes(p@),
{
    if !is_top_reference(file_path) {
        if escapes_project(file_path) {
            return Err(String::from_str("Path escapes the project directory"));
        }
        return Ok(String::from_str(file_path));
    }
    match find_node(nodes, node_id) {
        None => Err(String::from_str("Node not found")),
        Some(k) => {
            let node = &nodes[k];
            let pid: &str = match &node.parent_id {
                Some(p) => p.as_str(),
                None => "",
            };
            proof {
                reveal_strlit("");
                assert(pid@ =~= node.parent_ref());
            }
            let path = compose(nodes, pid, node.name.as_str(), Some(k));
            if escapes_project(path.as_str()) {
                Err(String::from_str("Path escapes the project directory"))
            } else {
                Ok(path)
            }
        },
    }
}

proof fn lemma_walk_bounded(nodes: Seq<Node>, pid: Seq<char>, visited: Seq<int>)
    requires
        visited.len() <= nodes.len(),
    ensures
        ancestor_names(nodes, pid, visited).len() <= nodes.len() - visited.len(),
    decreases nodes.len() - visited.len(),
{
    if !(visited.len() >= nodes.len() || is_top_ref(pid)) {
        let k = find_index(nodes, pid);
        if !(k < 0 || visited.contains(k) || nodes[k].is_root_marker()) {
            lemma_walk_bounded(nodes, nodes[k].parent_ref(), visited.push(k));
        }
    }
}

proof fn lemma_walk_within(nodes: Seq<Node>, pid: Seq<char>, visited: Seq<int>, k: nat)
    requires
        reaches_top_within(nodes, pid, k),
    ensures
        ancestor_names(nodes, pid, visited).len() <= k,
    decreases k,
{
    if !(visited.len() >= nodes.len() || is_top_ref(pid)) {
        let i = find_index(nodes, pid);
        if !(i < 0 || visited.contains(i) || nodes[i].is_root_marker()) {
            lemma_walk_within(nodes, nodes[i].parent_ref(), visited.push(i), (k - 1) as nat);
        }
    }
}

/// However the parent references are laid out, cycles included, the walk to
/// the root passes each node at most once, so it takes at most as many steps
/// as there are nodes.
pub proof fn ancestor_walk_is_bounded(nodes: Seq<Node>, pid: Seq<char>)
    ensures
        ancestor_names(nodes, pid, Seq::empty()).len() <= nodes.len(),
{
    lemma_walk_bounded(nodes, pid, Seq::empty());
}

/// In a forest where the walk from `pid` reaches the top within `k` hops, the
/// walk takes at most `k` steps: the composed path has at most `k` ancestors.
pub proof fn ancestor_walk_within_depth(nodes: Seq<Node>, pid: Seq<char>, k: nat)
    requires
        reaches_top_within(nodes, pid, k),
    ensures
        ancestor_names(nodes, pid, Seq::empty()).len() <= k,
{
    lemma_walk_within(nodes, pid, Seq::empty(), k);
}

proof fn lemma_indices(nodes: Seq<Node>, pid: Seq<char>, visited: Seq<int>)
    ensures
        ancestor_names(nodes, pid, visited) == ancestor_indices(nodes, pid, visited).map_values(
            |i: int| nodes[i].name@,
        ),
        ancestor_indices(nodes, pid, visited).no_duplicates(),
        forall|j: int|
            0 <= j < ancestor_indices(nodes, pid, visited).len() ==> !visited.contains(
                #[trigger] ancestor_indices(nodes, pid, visited)[j],
            ) && 0 <= ancestor_indices(nodes, pid, visited)[j] < nodes.len(),
    decreases nodes.len() - visited.len(),
{
    if !(visited.len() >= nodes.len() || is_top_ref(pid)) {
        let k = find_index(nodes, pid);
        lemma_find_index_range(nodes, pid);
        if !(k < 0 || visited.contains(k) || nodes[k].is_root_marker()) {
            let v2 = visited.push(k);
            lemma_indices(nodes, nodes[k].parent_ref(), v2);
            let rest = ancestor_indices(nodes, nodes[k].parent_ref(), v2);
            let all = rest.push(k);
            assert(v2.contains(k)) by {
                assert(v2[visited.len() as int] == k);
            }
            assert forall|j: int| 0 <= j < rest.len() implies !visited.contains(rest[j])
                && rest[j] != k by {
                if visited.contains(rest[j]) {
                    let q = choose|q: int| 0 <= q < visited.len() && visited[q] == rest[j];
                    assert(v2[q] == rest[j]);
                }
            }
            assert forall|j: int| 0 <= j < all.len() implies !visited.contains(#[trigger] all[j])
                && 0 <= all[j] < nodes.len() by {
                if j < rest.len() {
                    assert(all[j] == rest[j]);
                }
            }
            assert forall|a: int, b: int| 0 <= a < all.len() && 0 <= b < all.len() && a != b implies all[a]
                != all[b] by {
                if a < rest.len() && b < rest.len() {
                    assert(all[a] == rest[a] && all[b] == rest[b]);
                } else if a < rest.len() {
                    assert(all[a] == rest[a]);
                } else if b < rest.len() {
                    assert(all[b] == rest[b]);
                }
            }
            assert(ancestor_names(nodes, pid, visited) =~= all.map_values(|i: int| nodes[i].name@));
        } else {
            assert(ancestor_names(nodes, pid, visited) =~= ancestor_indices(
                nodes,
                pid,
                visited,
            ).map_values(|i: int| nodes[i].name@));
        }
    } else {
        assert(ancestor_names(nodes, pid, visited) =~= ancestor_indices(
            nodes,
            pid,
            visited,
        ).map_values(|i: int| nodes[i].name@));
    }
}

proof fn lemma_find_index_range(nodes: Seq<Node>, id: Seq<char>)
    ensures
        -1 <= find_index(nodes, id) < nodes.len(),
    decreases nodes.len(),
{
    if nodes.len() > 0 && nodes[0].id@ != id {
        lemma_find_index_range(nodes.drop_first(), id);
    }
}

/// The path of a node names every node at most once: its ancestors' names
/// come from distinct nodes, none of them the node itself, even when the
/// parent references form a cycle.
pub proof fn node_path_names_each_node_once(nodes: Seq<Node>, k: int)
    requires
        0 <= k < nodes.len(),
    ensures
        ({
            let idx = ancestor_indices(nodes, nodes[k].parent_ref(), seq![k]);
            &&& idx.no_duplicates()
            &&& !idx.contains(k)
            &&& ancestor_names(nodes, nodes[k].parent_ref(), seq![k]) == idx.map_values(
                |i: int| nodes[i].name@,
            )
            &&& idx.len() < nodes.len()
        }),
{
    let idx = ancestor_indices(nodes, nodes[k].parent_ref(), seq![k]);
    lemma_indices(nodes, nodes[k].parent_ref(), seq![k]);
    assert(seq![k].contains(k)) by {
        assert(seq![k][0] == k);
    }
    if idx.contains(k) {
        let j = choose|j: int| 0 <= j < idx.len() && idx[j] == k;
        assert(!seq![k].contains(idx[j]));
    }
    lemma_walk_bounded(nodes, nodes[k].parent_ref(), seq![k]);
    assert(ancestor_names(nodes, nodes[k].parent_ref(), seq![k]).len() == idx.len());
}

} // verus!
