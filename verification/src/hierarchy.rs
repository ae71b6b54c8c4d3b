use vstd::prelude::*;

use crate::error::IndexError;
use crate::orbit::{Id, OrbitHierarchyInput, Record};
use crate::store::{
    Edge, EdgeTag, Store, Stored, edges_matching, find_first, lemma_edges_matching,
    lemma_find_first, rec_of,
};

verus! {

/// One parent-child edge leads from `a` to `b`.
pub open spec fn edge_step(s: Store, a: Id, b: Id) -> bool {
    exists|i: int|
        0 <= i < s.edges@.len() && (#[trigger] s.edges@[i]).tag == EdgeTag::OrbitParentToChild
            && s.edges@[i].from == a && s.edges@[i].to == b
}

/// `p` walks parent-child edges, one per consecutive pair.
pub open spec fn is_path(s: Store, p: Seq<Id>) -> bool {
    &&& p.len() >= 1
    &&& forall|k: int| 0 <= k < p.len() - 1 ==> edge_step(s, #[trigger] p[k], p[k + 1])
}

/// `x` is `root` itself or a transitive descendant of it.
pub open spec fn reaches(s: Store, root: Id, x: Id) -> bool {
    exists|p: Seq<Id>| is_path(s, p) && p[0] == root && p.last() == x
}

/// Every identifier reaches itself.
pub proof fn lemma_reaches_root(s: Store, root: Id)
    ensures
        reaches(s, root, root),
{
    let p = seq![root];
    assert(is_path(s, p) && p[0] == root && p.last() == root);
}

/// Reachability extends along one more edge.
pub proof fn lemma_reaches_step(s: Store, root: Id, x: Id, y: Id)
    requires
        reaches(s, root, x),
        edge_step(s, x, y),
    ensures
        reaches(s, root, y),
{
    let p = choose|p: Seq<Id>| is_path(s, p) && p[0] == root && p.last() == x;
    let q = p.push(y);
    assert forall|k: int| 0 <= k < q.len() - 1 implies edge_step(s, #[trigger] q[k], q[k + 1]) by {
        if k < p.len() - 1 {
            assert(q[k] == p[k] && q[k + 1] == p[k + 1]);
        } else {
            assert(q[k] == p.last() && q[k + 1] == y);
        }
    }
    assert(is_path(s, q) && q[0] == root && q.last() == y);
}

/// A set that holds the root and is closed under parent-child edges holds
/// everything the root reaches.
proof fn lemma_closed_covers(s: Store, root: Id, v: Seq<Id>, p: Seq<Id>)
    requires
        v.contains(root),
        forall|a: Id, b: Id|
            #![trigger v.contains(a), edge_step(s, a, b)]
            v.contains(a) && edge_step(s, a, b) ==> v.contains(b),
        is_path(s, p),
        p[0] == root,
    ensures
        v.contains(p.last()),
    decreases p.len(),
{
    if p.len() > 1 {
        let q = p.drop_last();
        assert forall|k: int| 0 <= k < q.len() - 1 implies edge_step(s, #[trigger] q[k], q[k + 1]) by {
            assert(q[k] == p[k] && q[k + 1] == p[k + 1]);
        }
        lemma_closed_covers(s, root, v, q);
        assert(edge_step(s, p[p.len() - 2], p.last()));
        assert(q.last() == p[p.len() - 2]);
    }
}

/// The set of identifiers that some edge of the list points at.
pub open spec fn edge_targets(edges: Seq<Edge>) -> Set<Id> {
    Set::new(|x: Id| exists|i: int| 0 <= i < edges.len() && (#[trigger] edges[i]).to == x)
}

/// There are no more distinct edge targets than edges.
proof fn lemma_edge_targets_card(edges: Seq<Edge>)
    ensures
        edge_targets(edges).finite(),
        edge_targets(edges).len() <= edges.len(),
    decreases edges.len(),
{
    if edges.len() == 0 {
        assert(edge_targets(edges) =~= Set::empty());
    } else {
        let rest = edges.drop_last();
        lemma_edge_targets_card(rest);
        assert forall|x: Id| edge_targets(edges).contains(x) implies edge_targets(rest).insert(
            edges.last().to,
        ).contains(x) by {
            let i = choose|i: int| 0 <= i < edges.len() && edges[i].to == x;
            if i < edges.len() - 1 {
                assert(rest[i] == edges[i]);
                assert(edge_targets(rest).contains(x));
            }
        }
        assert forall|x: Id| edge_targets(rest).insert(edges.last().to).contains(x) implies
            edge_targets(edges).contains(x) by {
            if edge_targets(rest).contains(x) {
                let i = choose|i: int| 0 <= i < rest.len() && rest[i].to == x;
                assert(edges[i] == rest[i]);
            } else {
                assert(edges[edges.len() - 1].to == x);
            }
        }
        assert(edge_targets(edges) =~= edge_targets(rest).insert(edges.last().to));
    }
}

/// A duplicate-free list of the root and edge targets is no longer than the
/// edge list plus one.
proof fn lemma_visited_bound(s: Store, v: Seq<Id>, root: Id)
    requires
        v.no_duplicates(),
        v.len() >= 1,
        v[0] == root,
        forall|k: int| 1 <= k < v.len() ==> edge_targets(s.edges@).contains(#[trigger] v[k]),
    ensures
        v.len() <= s.edges@.len() + 1,
{
    let t = edge_targets(s.edges@).insert(root);
    lemma_edge_targets_card(s.edges@);
    assert forall|x: Id| v.to_set().contains(x) implies t.contains(x) by {
        let k = choose|k: int| 0 <= k < v.len() && v[k] == x;
        if k == 0 {
            assert(t.contains(root));
        }
    }
    assert(v.to_set().subset_of(t));
    v.unique_seq_to_set();
    vstd::set_lib::lemma_len_subset(v.to_set(), t);
}

/// Membership scan.
fn contains_id(v: &Vec<Id>, x: Id) -> (r: bool)
    ensures
        r == v@.contains(x),
{
    let n = v.len();
    let mut k: usize = 0;
    while k < n
        invariant
            n == v@.len(),
            k <= n,
            forall|j: int| 0 <= j < k ==> v@[j] != x,
        decreases n - k,
    {
        if v[k] == x {
            return true;
        }
        k = k + 1;
    }
    false
}

/// Descendant Collector: enumerate the root and all its transitive
/// descendants along parent-child edges.  Always terminates and never
/// fails: an absent edge means "no children", and a visited set makes the
/// traversal safe on cyclic edge data.  The result holds each identifier
/// once; the root comes first.
pub fn collect_descendants(s: &Store, root_id: Id) -> (r: Vec<Id>)
    ensures
        r@.no_duplicates(),
        r@.len() >= 1,
        r@[0] == root_id,
        forall|x: Id| r@.contains(x) <==> reaches(*s, root_id, x),
{
    let mut visited: Vec<Id> = Vec::new();
    visited.push(root_id);
    proof {
        lemma_reaches_root(*s, root_id);
    }
    let mut i: usize = 0;
    while i < visited.len()
        invariant
            1 <= visited@.len() <= s.edges@.len() + 1,
            visited@[0] == root_id,
            i <= visited@.len(),
            visited@.no_duplicates(),
            forall|k: int| 0 <= k < visited@.len() ==> reaches(*s, root_id, #[trigger] visited@[k]),
            forall|k: int|
                1 <= k < visited@.len() ==> edge_targets(s.edges@).contains(#[trigger] visited@[k]),
            forall|k: int, j: int|
                #![trigger visited@[k], s.edges@[j]]
                0 <= k < i && 0 <= j < s.edges@.len() && s.edges@[j].tag
                    == EdgeTag::OrbitParentToChild && s.edges@[j].from == visited@[k]
                    ==> visited@.contains(s.edges@[j].to),
        decreases s.edges@.len() + 1 - visited@.len(), visited@.len() - i,
    {
        let cur = visited[i];
        let children = s.get_edges(cur, EdgeTag::OrbitParentToChild);
        let m = children.len();
        let ghost snap = visited@;
        let mut j: usize = 0;
        while j < m
            invariant
                1 <= visited@.len() <= s.edges@.len() + 1,
                visited@[0] == root_id,
                i < visited@.len(),
                visited@[i as int] == cur,
                visited@.no_duplicates(),
                m == children@.len(),
                j <= m,
                children@ == edges_matching(s.edges@, cur, EdgeTag::OrbitParentToChild),
                reaches(*s, root_id, cur),
                forall|k: int|
                    0 <= k < visited@.len() ==> reaches(*s, root_id, #[trigger] visited@[k]),
                forall|k: int|
                    1 <= k < visited@.len() ==> edge_targets(s.edges@).contains(
                        #[trigger] visited@[k],
                    ),
                forall|k: int, jj: int|
                    #![trigger visited@[k], s.edges@[jj]]
                    0 <= k < i && 0 <= jj < s.edges@.len() && s.edges@[jj].tag
                        == EdgeTag::OrbitParentToChild && s.edges@[jj].from == visited@[k]
                        ==> visited@.contains(s.edges@[jj].to),
                forall|t: int| 0 <= t < j ==> visited@.contains(#[trigger] children@[t].to),
                snap.is_prefix_of(visited@),
            decreases m - j,
        {
            let target = children[j].to;
            let seen = contains_id(&visited, target);
            if !seen {
                proof {
                    lemma_edges_matching(s.edges@, cur, EdgeTag::OrbitParentToChild);
                    let e = children@[j as int];
                    assert(s.edges@.contains(e));
                    let ei = choose|ei: int| 0 <= ei < s.edges@.len() && s.edges@[ei] == e;
                    assert(edge_step(*s, cur, target));
                    assert(edge_targets(s.edges@).contains(target));
                    lemma_reaches_step(*s, root_id, cur, target);
                    let pushed = visited@.push(target);
                    assert forall|a: int, b: int| 0 <= a < b < pushed.len() implies pushed[a]
                        != pushed[b] by {
                        if b < pushed.len() - 1 {
                            assert(pushed[a] == visited@[a] && pushed[b] == visited@[b]);
                        } else {
                            assert(pushed[b] == target && pushed[a] == visited@[a]);
                            assert(!visited@.contains(target));
                        }
                    }
                    assert(pushed.no_duplicates());
                    lemma_visited_bound(*s, pushed, root_id);
                }
                let ghost vpre = visited@;
                visited.push(target);
                proof {
                    assert(visited@ == vpre.push(target));
                    assert forall|t: int| 0 <= t <= j implies visited@.contains(
                        #[trigger] children@[t].to,
                    ) by {
                        if t < j {
                            let c = children@[t].to;
                            assert(vpre.contains(c));
                            let w = choose|w: int| 0 <= w < vpre.len() && vpre[w] == c;
                            assert(visited@[w] == c);
                        } else {
                            assert(visited@.last() == target);
                        }
                    }
                    assert forall|k: int, jj: int|
                        #![trigger visited@[k], s.edges@[jj]]
                        0 <= k < i && 0 <= jj < s.edges@.len() && s.edges@[jj].tag
                            == EdgeTag::OrbitParentToChild && s.edges@[jj].from == visited@[k]
                            implies visited@.contains(s.edges@[jj].to) by {
                        assert(vpre[k] == visited@[k]);
                        assert(vpre.contains(s.edges@[jj].to));
                        let w = choose|w: int| 0 <= w < vpre.len() && vpre[w] == s.edges@[jj].to;
                        assert(visited@[w] == s.edges@[jj].to);
                    }
                }
            }
            j = j + 1;
        }
        proof {
            lemma_edges_matching(s.edges@, cur, EdgeTag::OrbitParentToChild);
            assert forall|k: int, jj: int|
                #![trigger visited@[k], s.edges@[jj]]
                0 <= k < i + 1 && 0 <= jj < s.edges@.len() && s.edges@[jj].tag
                    == EdgeTag::OrbitParentToChild && s.edges@[jj].from == visited@[k] implies
                visited@.contains(s.edges@[jj].to) by {
                if k == i {
                    assert(children@.contains(s.edges@[jj]));
                    let t = choose|t: int|
                        0 <= t < children@.len() && children@[t] == s.edges@[jj];
                    assert(visited@.contains(children@[t].to));
                }
            }
        }
        i = i + 1;
    }
    proof {
        assert forall|x: Id| visited@.contains(x) implies reaches(*s, root_id, x) by {
            let k = choose|k: int| 0 <= k < visited@.len() && visited@[k] == x;
        }
        assert forall|x: Id| reaches(*s, root_id, x) implies visited@.contains(x) by {
            assert forall|a: Id, b: Id|
                #![trigger visited@.contains(a), edge_step(*s, a, b)]
                visited@.contains(a) && edge_step(*s, a, b) implies visited@.contains(b) by {
                let k = choose|k: int| 0 <= k < visited@.len() && visited@[k] == a;
                let jj = choose|jj: int|
                    0 <= jj < s.edges@.len() && s.edges@[jj].tag == EdgeTag::OrbitParentToChild
                        && s.edges@[jj].from == a && s.edges@[jj].to == b;
                assert(visited@.contains(s.edges@[jj].to));
            }
            let p = choose|p: Seq<Id>| is_path(*s, p) && p[0] == root_id && p.last() == x;
            lemma_closed_covers(*s, root_id, visited@, p);
        }
    }
    visited
}

/// Matcher for a record whose content identifier is `eid`.
pub open spec fn entry_pred(eid: Id) -> spec_fn(Record) -> bool {
    |r: Record| r.entry_hash == eid
}

/// The content identifiers of a record set, one per distinct identifier, in
/// first-occurrence order.
pub open spec fn node_ids(rs: Seq<Record>) -> Seq<Id>
    decreases rs.len(),
{
    if rs.len() == 0 {
        Seq::empty()
    } else {
        let prefix = node_ids(rs.drop_last());
        if prefix.contains(rs.last().entry_hash) {
            prefix
        } else {
            prefix.push(rs.last().entry_hash)
        }
    }
}

/// A content identifier is a node identifier exactly when some record holds
/// it; node identifiers are duplicate-free.
pub proof fn lemma_node_ids(rs: Seq<Record>)
    ensures
        forall|eid: Id|
            node_ids(rs).contains(eid) <==> (exists|j: int|
                0 <= j < rs.len() && (#[trigger] rs[j]).entry_hash == eid),
        node_ids(rs).no_duplicates(),
        node_ids(rs).len() <= rs.len(),
    decreases rs.len(),
{
    if rs.len() > 0 {
        let rest = rs.drop_last();
        lemma_node_ids(rest);
        assert forall|eid: Id| node_ids(rs).contains(eid) implies (exists|j: int|
            0 <= j < rs.len() && (#[trigger] rs[j]).entry_hash == eid) by {
            if node_ids(rest).contains(eid) {
                let j = choose|j: int| 0 <= j < rest.len() && rest[j].entry_hash == eid;
                assert(rs[j].entry_hash == eid);
            } else {
                assert(rs[rs.len() - 1].entry_hash == eid);
            }
        }
        assert forall|eid: Id|
            (exists|j: int| 0 <= j < rs.len() && (#[trigger] rs[j]).entry_hash == eid) implies
            node_ids(rs).contains(eid) by {
            let j = choose|j: int| 0 <= j < rs.len() && rs[j].entry_hash == eid;
            if j < rs.len() - 1 {
                assert(rest[j].entry_hash == eid);
                assert(node_ids(rest).contains(eid));
                if !node_ids(rest).contains(rs.last().entry_hash) {
                    let w = choose|w: int|
                        0 <= w < node_ids(rest).len() && node_ids(rest)[w] == eid;
                    assert(node_ids(rs)[w] == eid);
                }
            } else {
                if node_ids(rest).contains(eid) {
                    let w = choose|w: int|
                        0 <= w < node_ids(rest).len() && node_ids(rest)[w] == eid;
                    assert(node_ids(rs)[w] == eid);
                } else {
                    assert(node_ids(rs).last() == eid);
                }
            }
        }
        if !node_ids(rest).contains(rs.last().entry_hash) {
            let ids = node_ids(rs);
            assert forall|a: int, b: int| 0 <= a < b < ids.len() implies ids[a] != ids[b] by {
                if b < ids.len() - 1 {
                    assert(ids[a] == node_ids(rest)[a] && ids[b] == node_ids(rest)[b]);
                } else {
                    assert(ids[a] == node_ids(rest)[a]);
                    assert(node_ids(rest).contains(node_ids(rest)[a]));
                }
            }
        }
    }
}

/// The declared parent of the node with content identifier `eid`: what the
/// first record holding that content declares (meaningful only when one
/// does).
pub open spec fn parent_of(rs: Seq<Record>, eid: Id) -> Option<Id> {
    match find_first(rs, entry_pred(eid)) {
        Option::Some(i) => rs[i].orbit.parent_hash,
        Option::None => arbitrary(),
    }
}

/// The name of the node with content identifier `eid` (meaningful only when
/// a record holds that content).
pub open spec fn name_of(rs: Seq<Record>, eid: Id) -> Seq<char> {
    match find_first(rs, entry_pred(eid)) {
        Option::Some(i) => rs[i].orbit.name@,
        Option::None => arbitrary(),
    }
}

/// The node set is dangling when some node declares a parent that no record
/// of the set holds.
pub open spec fn dangling(rs: Seq<Record>) -> bool {
    exists|t: int|
        0 <= t < node_ids(rs).len() && (#[trigger] parent_of(rs, node_ids(rs)[t])) is Some
            && !node_ids(rs).contains(parent_of(rs, node_ids(rs)[t])->0)
}

/// The children of the node whose content identifier is `pid`, among the
/// first `j0` nodes: their arena indices in first-occurrence order.
pub open spec fn children_upto(rs: Seq<Record>, ids: Seq<Id>, pid: Id, j0: int) -> Seq<usize>
    decreases j0,
{
    if j0 <= 0 {
        Seq::empty()
    } else {
        let rest = children_upto(rs, ids, pid, j0 - 1);
        if parent_of(rs, ids[j0 - 1]) == Option::Some(pid) {
            rest.push((j0 - 1) as usize)
        } else {
            rest
        }
    }
}

/// The abstract value of a tree node: its identifier, name, declared
/// parent, and the arena indices of its children in order.
#[verifier::ext_equal]
pub struct NodeView {
    pub id: Id,
    pub name: Seq<char>,
    pub parent: Option<Id>,
    pub children: Seq<usize>,
}

/// One ephemeral tree node of a hierarchy response: records parent-child
/// shape as arena indices, never as owned cross-references.
#[derive(Debug)]
pub struct TreeNode {
    pub id: Id,
    pub name: String,
    pub parent: Option<Id>,
    pub children: Vec<usize>,
}

impl View for TreeNode {
    type V = NodeView;

    open spec fn view(&self) -> NodeView {
        NodeView { id: self.id, name: self.name@, parent: self.parent, children: self.children@ }
    }
}

/// The arena of tree nodes a hierarchy build returns, keyed by position;
/// `node_ids` gives the content identifier of each position.
#[derive(Debug)]
pub struct Forest {
    pub nodes: Vec<TreeNode>,
}

/// What a build of `rs` must return at position `t`.
pub open spec fn forest_node(rs: Seq<Record>, t: int) -> NodeView {
    let ids = node_ids(rs);
    NodeView {
        id: ids[t],
        name: name_of(rs, ids[t]),
        parent: parent_of(rs, ids[t]),
        children: children_upto(rs, ids, ids[t], ids.len() as int),
    }
}

/// Find the arena position holding `id`.
fn find_node(nodes: &Vec<TreeNode>, id: Id) -> (r: Option<usize>)
    ensures
        (match r {
            Option::Some(q) => q < nodes@.len() && nodes@[q as int].id == id,
            Option::None => forall|q: int| 0 <= q < nodes@.len() ==> (#[trigger] nodes@[q]).id != id,
        }),
{
    let n = nodes.len();
    let mut k: usize = 0;
    while k < n
        invariant
            n == nodes@.len(),
            k <= n,
            forall|q: int| 0 <= q < k ==> (#[trigger] nodes@[q]).id != id,
        decreases n - k,
    {
        if nodes[k].id == id {
            return Some(k);
        }
        k = k + 1;
    }
    None
}

/// Hierarchy Builder: reconstruct the parent-child arena from a flat record
/// set, in two passes so that the input order of records never hides a
/// relationship.  Fails with `DanglingParent` exactly when a node declares a
/// parent that no record of the set holds; the caller under-fetched.
pub fn build_tree(records: &Vec<Record>) -> (r: Result<Forest, IndexError>)
    ensures
        (match r {
            Result::Ok(f) => {
                &&& !dangling(records@)
                &&& f.nodes@.len() == node_ids(records@).len()
                &&& forall|t: int|
                    0 <= t < f.nodes@.len() ==> (#[trigger] f.nodes@[t])@ == forest_node(
                        records@,
                        t,
                    )
            },
            Result::Err(e) => e == IndexError::DanglingParent && dangling(records@),
        }),
{
    let n = records.len();
    let mut nodes: Vec<TreeNode> = Vec::new();
    // Pass 1: one node per distinct content identifier, in input order.
    let mut k: usize = 0;
    while k < n
        invariant
            n == records@.len(),
            k <= n,
            nodes@.len() == node_ids(records@.take(k as int)).len(),
            forall|t: int|
                0 <= t < nodes@.len() ==> (#[trigger] nodes@[t]).id == node_ids(
                    records@.take(k as int),
                )[t],
            forall|t: int|
                0 <= t < nodes@.len() ==> ((#[trigger] nodes@[t]).name@ == name_of(
                    records@,
                    nodes@[t].id,
                ) && nodes@[t].parent == parent_of(records@, nodes@[t].id) && nodes@[t].children@
                    == Seq::<usize>::empty()),
        decreases n - k,
    {
        let eid = records[k].entry_hash;
        proof {
            lemma_node_ids(records@.take(k as int));
            assert(records@.take(k + 1).drop_last() =~= records@.take(k as int));
            assert(records@.take(k + 1).last() == records@[k as int]);
        }
        let existing = find_node(&nodes, eid);
        match existing {
            Some(_) => {
                proof {
                    let ids = node_ids(records@.take(k as int));
                    let q = choose|q: int| 0 <= q < nodes@.len() && nodes@[q].id == eid;
                    assert(ids.contains(ids[q]));
                }
            },
            None => {
                proof {
                    let ids = node_ids(records@.take(k as int));
                    if ids.contains(eid) {
                        let w = choose|w: int| 0 <= w < ids.len() && ids[w] == eid;
                        assert(nodes@[w].id == eid);
                        assert(false);
                    }
                    // this record is the first with `eid`: nothing earlier matches
                    assert forall|j: int| 0 <= j < k implies !(entry_pred(eid)(records@[j])) by {
                        if records@[j].entry_hash == eid {
                            lemma_node_ids(records@.take(k as int));
                            assert(records@.take(k as int)[j].entry_hash == eid);
                            assert(ids.contains(eid));
                        }
                    }
                    lemma_find_first(records@, entry_pred(eid));
                    match find_first(records@, entry_pred(eid)) {
                        Option::Some(fo) => {
                            if fo < k {
                                assert(!(entry_pred(eid)(records@[fo])));
                            }
                            assert(fo == k);
                        },
                        Option::None => {
                            assert(entry_pred(eid)(records@[k as int]));
                        },
                    }
                }
                let node = TreeNode {
                    id: eid,
                    name: records[k].orbit.name.clone(),
                    parent: records[k].orbit.parent_hash,
                    children: Vec::new(),
                };
                nodes.push(node);
            },
        }
        k = k + 1;
    }
    proof {
        assert(records@.take(n as int) =~= records@);
        lemma_node_ids(records@);
    }
    // Pass 2: attach each node to its declared parent, in input order.
    let ghost ids = node_ids(records@);
    let total = nodes.len();
    let mut t: usize = 0;
    while t < total
        invariant
            total == nodes@.len(),
            t <= total,
            nodes@.len() == node_ids(records@).len(),
            ids == node_ids(records@),
            ids.no_duplicates(),
            forall|q: int| 0 <= q < nodes@.len() ==> (#[trigger] nodes@[q]).id == ids[q],
            forall|q: int|
                0 <= q < nodes@.len() ==> ((#[trigger] nodes@[q]).name@ == name_of(
                    records@,
                    nodes@[q].id,
                ) && nodes@[q].parent == parent_of(records@, nodes@[q].id)),
            forall|q: int|
                0 <= q < nodes@.len() ==> (#[trigger] nodes@[q]).children@ == children_upto(
                    records@,
                    ids,
                    ids[q],
                    t as int,
                ),
            forall|u: int|
                0 <= u < t ==> ((#[trigger] parent_of(records@, ids[u])) is Some ==> ids.contains(
                    parent_of(records@, ids[u])->0,
                )),
        decreases total - t,
    {
        let parent = nodes[t].parent;
        match parent {
            Some(p) => {
                match find_node(&nodes, p) {
                    Some(q) => {
                        let child_index = t;
                        proof {
                            assert(ids.contains(ids[q as int]));
                        }
                        nodes[q].children.push(child_index);
                        proof {
                            assert forall|u: int| 0 <= u < nodes@.len() implies (
                            #[trigger] nodes@[u]).children@ == children_upto(
                                records@,
                                ids,
                                ids[u],
                                t as int + 1,
                            ) by {
                                if u != q {
                                    assert(ids[u] != p);
                                }
                            }
                        }
                    },
                    None => {
                        proof {
                            assert(parent_of(records@, ids[t as int]) is Some);
                            if ids.contains(p) {
                                let w = choose|w: int| 0 <= w < ids.len() && ids[w] == p;
                                assert(nodes@[w].id == p);
                                assert(false);
                            }
                            assert(0 <= t < node_ids(records@).len() && (#[trigger] parent_of(
                                records@,
                                node_ids(records@)[t as int],
                            )) is Some && !node_ids(records@).contains(
                                parent_of(records@, node_ids(records@)[t as int])->0,
                            ));
                            assert(dangling(records@));
                        }
                        return Err(IndexError::DanglingParent);
                    },
                }
            },
            None => {
                proof {
                    assert forall|u: int| 0 <= u < nodes@.len() implies (
                    #[trigger] nodes@[u]).children@ == children_upto(
                        records@,
                        ids,
                        ids[u],
                        t as int + 1,
                    ) by {}
                }
            },
        }
        t = t + 1;
    }
    proof {
        assert(!dangling(records@));
        assert forall|u: int| 0 <= u < nodes@.len() implies (#[trigger] nodes@[u])@ == forest_node(
            records@,
            u,
        ) by {
            assert(nodes@[u].children@ == children_upto(records@, ids, ids[u], ids.len() as int));
            assert(nodes@[u]@ =~= forest_node(records@, u));
        }
    }
    Ok(Forest { nodes })
}

/// Relies on String::push: appends exactly one character.
#[verifier::external_body]
fn push_char(s: &mut String, c: char)
    ensures
        final(s)@ == old(s)@.push(c),
{
    s.push(c);
}

/// The decimal digit character for `d` (meaningful for `d < 10`).
pub open spec fn dec_digit(d: nat) -> char {
    if d == 0 {
        '0'
    } else if d == 1 {
        '1'
    } else if d == 2 {
        '2'
    } else if d == 3 {
        '3'
    } else if d == 4 {
        '4'
    } else if d == 5 {
        '5'
    } else if d == 6 {
        '6'
    } else if d == 7 {
        '7'
    } else if d == 8 {
        '8'
    } else {
        '9'
    }
}

/// The decimal rendering of `n`, most significant digit first.
pub open spec fn dec_of(n: nat) -> Seq<char>
    decreases n,
{
    if n < 10 {
        seq![dec_digit(n)]
    } else {
        dec_of(n / 10).push(dec_digit(n % 10))
    }
}

/// The lower-case hexadecimal digit character for `d` (meaningful for
/// `d < 16`).
pub open spec fn hex_digit(d: nat) -> char {
    if d < 10 {
        dec_digit(d)
    } else if d == 10 {
        'a'
    } else if d == 11 {
        'b'
    } else if d == 12 {
        'c'
    } else if d == 13 {
        'd'
    } else if d == 14 {
        'e'
    } else {
        'f'
    }
}

fn digit_char(d: usize) -> (c: char)
    requires
        d < 10,
    ensures
        c == dec_digit(d as nat),
{
    match d {
        0 => '0',
        1 => '1',
        2 => '2',
        3 => '3',
        4 => '4',
        5 => '5',
        6 => '6',
        7 => '7',
        8 => '8',
        _ => '9',
    }
}

fn hex_char(d: usize) -> (c: char)
    requires
        d < 16,
    ensures
        c == hex_digit(d as nat),
{
    match d {
        0 => '0',
        1 => '1',
        2 => '2',
        3 => '3',
        4 => '4',
        5 => '5',
        6 => '6',
        7 => '7',
        8 => '8',
        9 => '9',
        10 => 'a',
        11 => 'b',
        12 => 'c',
        13 => 'd',
        14 => 'e',
        _ => 'f',
    }
}

/// Render an identifier in decimal.
fn dec_string(x: usize) -> (r: String)
    ensures
        r@ == dec_of(x as nat),
    decreases x,
{
    if x < 10 {
        let mut s = String::new();
        push_char(&mut s, digit_char(x));
        proof {
            assert(s@ =~= seq![dec_digit(x as nat)]);
        }
        s
    } else {
        let mut s = dec_string(x / 10);
        push_char(&mut s, digit_char(x % 10));
        s
    }
}

/// How one character stands inside a JSON string: quote and backslash are
/// escaped, control characters become a four-digit escape, everything else
/// stands as itself.
pub open spec fn esc_char(c: char) -> Seq<char> {
    if c == '"' {
        seq!['\\', '"']
    } else if c == '\\' {
        seq!['\\', '\\']
    } else if (c as u32) < 32 {
        seq![
            '\\',
            'u',
            '0',
            '0',
            hex_digit(((c as u32) / 16) as nat),
            hex_digit(((c as u32) % 16) as nat),
        ]
    } else {
        seq![c]
    }
}

/// A name as it stands inside a JSON string.
pub open spec fn json_escape(s: Seq<char>) -> Seq<char>
    decreases s.len(),
{
    if s.len() == 0 {
        Seq::empty()
    } else {
        json_escape(s.drop_last()) + esc_char(s.last())
    }
}

/// Escape a name for a JSON string.
fn escape_string(s: &String) -> (r: String)
    ensures
        r@ == json_escape(s@),
{
    let n = s.as_str().unicode_len();
    let mut out = String::new();
    let mut i: usize = 0;
    while i < n
        invariant
            n == s@.len(),
            i <= n,
            out@ == json_escape(s@.take(i as int)),
        decreases n - i,
    {
        let c = s.as_str().get_char(i);
        if c == '"' {
            push_char(&mut out, '\\');
            push_char(&mut out, '"');
        } else if c == '\\' {
            push_char(&mut out, '\\');
            push_char(&mut out, '\\');
        } else if (c as u32) < 32 {
            push_char(&mut out, '\\');
            push_char(&mut out, 'u');
            push_char(&mut out, '0');
            push_char(&mut out, '0');
            push_char(&mut out, hex_char(((c as u32) / 16) as usize));
            push_char(&mut out, hex_char(((c as u32) % 16) as usize));
        } else {
            push_char(&mut out, c);
        }
        proof {
            assert(s@.take(i + 1).drop_last() =~= s@.take(i as int));
            assert(s@.take(i + 1).last() == s@[i as int]);
            assert(out@ =~= json_escape(s@.take(i + 1)));
        }
        i = i + 1;
    }
    proof {
        assert(s@.take(n as int) =~= s@);
    }
    out
}

/// The JSON text of the subtree rooted at position `t`: its identifier, its
/// name, and its children in order, recursively.  `fuel` bounds the depth,
/// so the rendering is well-defined even on cyclic arena data; a cycle
/// starves the fuel and yields nothing.
pub open spec fn json_of_node(nodes: Seq<NodeView>, t: int, fuel: nat) -> Option<Seq<char>>
    decreases fuel, 0int,
{
    if fuel == 0 {
        None
    } else if !(0 <= t < nodes.len()) {
        None
    } else {
        match json_of_list(nodes, nodes[t].children, (fuel - 1) as nat) {
            Option::Some(body) => Some(
                "{\"id\":"@ + dec_of(nodes[t].id as nat) + ",\"name\":\""@ + json_escape(
                    nodes[t].name,
                ) + "\",\"children\":["@ + body + "]}"@,
            ),
            Option::None => None,
        }
    }
}

/// The JSON texts of the subtrees at positions `cs`, joined with commas.
pub open spec fn json_of_list(nodes: Seq<NodeView>, cs: Seq<usize>, fuel: nat) -> Option<
    Seq<char>,
>
    decreases fuel, cs.len(),
{
    if cs.len() == 0 {
        Some(Seq::empty())
    } else {
        match (
            json_of_list(nodes, cs.drop_last(), fuel),
            json_of_node(nodes, cs.last() as int, fuel),
        ) {
            (Option::Some(pre), Option::Some(one)) => Some(
                if cs.len() == 1 {
                    one
                } else {
                    pre + ","@ + one
                },
            ),
            _ => None,
        }
    }
}

/// One failing subtree starves the whole list.
proof fn lemma_json_list_none(nodes: Seq<NodeView>, cs: Seq<usize>, fuel: nat, k: int)
    requires
        0 <= k < cs.len(),
        json_of_node(nodes, cs[k] as int, fuel) is None,
    ensures
        json_of_list(nodes, cs, fuel) is None,
    decreases cs.len(),
{
    if k < cs.len() - 1 {
        assert(cs.drop_last()[k] == cs[k]);
        lemma_json_list_none(nodes, cs.drop_last(), fuel, k);
    }
}

/// A ranking certificate for an arena: every child ranks strictly below its
/// parent, which rules a cycle out.
pub open spec fn ranked(nodes: Seq<NodeView>, rank: Seq<nat>) -> bool {
    &&& rank.len() == nodes.len()
    &&& forall|t: int, k: int|
        0 <= t < nodes.len() && 0 <= k < nodes[t].children.len() ==> {
            let c = #[trigger] nodes[t].children[k] as int;
            0 <= c < nodes.len() && rank[c] < rank[t]
        }
}

/// Under any ranking certificate the rendering cannot starve: fuel above
/// the root's rank always yields a text.  Success of a hierarchy response
/// is owed whenever the fetched parent declarations form a tree.
pub proof fn lemma_render_succeeds(nodes: Seq<NodeView>, rank: Seq<nat>, t: int, fuel: nat)
    requires
        ranked(nodes, rank),
        0 <= t < nodes.len(),
        rank[t] < fuel,
    ensures
        json_of_node(nodes, t, fuel) is Some,
    decreases fuel, 0int,
{
    let cs = nodes[t].children;
    assert forall|k: int| 0 <= k < cs.len() implies {
        let c = #[trigger] cs[k] as int;
        0 <= c < nodes.len() && rank[c] < (fuel - 1) as nat
    } by {
        assert(nodes[t].children[k] == cs[k]);
    }
    lemma_render_list_succeeds(nodes, rank, cs, (fuel - 1) as nat);
}

/// Under a ranking certificate a whole child list renders.
proof fn lemma_render_list_succeeds(nodes: Seq<NodeView>, rank: Seq<nat>, cs: Seq<usize>, fuel: nat)
    requires
        ranked(nodes, rank),
        forall|k: int|
            0 <= k < cs.len() ==> {
                let c = #[trigger] cs[k] as int;
                0 <= c < nodes.len() && rank[c] < fuel
            },
    ensures
        json_of_list(nodes, cs, fuel) is Some,
    decreases fuel, cs.len(),
{
    if cs.len() > 0 {
        assert forall|k: int| 0 <= k < cs.drop_last().len() implies {
            let c = #[trigger] cs.drop_last()[k] as int;
            0 <= c < nodes.len() && rank[c] < fuel
        } by {
            assert(cs.drop_last()[k] == cs[k]);
        }
        lemma_render_list_succeeds(nodes, rank, cs.drop_last(), fuel);
        assert(cs[cs.len() - 1] == cs.last());
        lemma_render_succeeds(nodes, rank, cs.last() as int, fuel);
    }
}

/// The abstract values of an arena.
pub open spec fn views_of(nodes: Seq<TreeNode>) -> Seq<NodeView> {
    nodes.map_values(|n: TreeNode| n@)
}

/// Render the subtree at position `t` as JSON, with `fuel` bounding the
/// depth.
fn render_node(nodes: &Vec<TreeNode>, t: usize, fuel: usize) -> (r: Option<String>)
    ensures
        (match r {
            Option::Some(out) => json_of_node(views_of(nodes@), t as int, fuel as nat)
                == Some(out@),
            Option::None => json_of_node(views_of(nodes@), t as int, fuel as nat) is None,
        }),
    decreases fuel,
{
    if fuel == 0 {
        return None;
    }
    if t >= nodes.len() {
        return None;
    }
    let mut out = String::new();
    out.append("{\"id\":");
    let ds = dec_string(nodes[t].id);
    out.append(ds.as_str());
    out.append(",\"name\":\"");
    let esc = escape_string(&nodes[t].name);
    out.append(esc.as_str());
    out.append("\",\"children\":[");
    let m = nodes[t].children.len();
    let mut body = String::new();
    let mut k: usize = 0;
    while k < m
        invariant
            fuel >= 1,
            t < nodes@.len(),
            m == nodes@[t as int].children@.len(),
            k <= m,
            json_of_list(views_of(nodes@), nodes@[t as int].children@.take(k as int), (fuel
                - 1) as nat) == Some(body@),
        decreases m - k,
    {
        let child = nodes[t].children[k];
        proof {
            let cs = nodes@[t as int].children@;
            assert(cs.take(k + 1).drop_last() =~= cs.take(k as int));
            assert(cs.take(k + 1).last() == cs[k as int]);
        }
        if k > 0 {
            body.append(",");
        }
        match render_node(nodes, child, fuel - 1) {
            Some(cj) => {
                body.append(cj.as_str());
            },
            None => {
                proof {
                    lemma_json_list_none(
                        views_of(nodes@),
                        nodes@[t as int].children@,
                        (fuel - 1) as nat,
                        k as int,
                    );
                }
                return None;
            },
        }
        k = k + 1;
    }
    proof {
        assert(nodes@[t as int].children@.take(m as int) =~= nodes@[t as int].children@);
    }
    out.append(body.as_str());
    out.append("]}");
    proof {
        let views = views_of(nodes@);
        let body_spec = (match json_of_list(views, views[t as int].children, (fuel - 1) as nat) {
            Option::Some(b) => b,
            Option::None => arbitrary(),
        });
        assert(out@ =~= "{\"id\":"@ + dec_of(views[t as int].id as nat) + ",\"name\":\""@
            + json_escape(views[t as int].name) + "\",\"children\":["@ + body_spec + "]}"@);
    }
    Some(out)
}

/// Every record of the store whose content the root reaches along
/// parent-child edges, in creation order: what a hierarchy request fetches
/// before building the tree.
pub open spec fn selected_records(items: Seq<Stored>, s: Store, root: Id) -> Seq<
    Record,
>
    decreases items.len(),
{
    if items.len() == 0 {
        Seq::empty()
    } else {
        let rest = selected_records(items.drop_last(), s, root);
        if items.last() is Rec && reaches(s, root, rec_of(items.last()).entry_hash) {
            rest.push(rec_of(items.last()))
        } else {
            rest
        }
    }
}

/// The abstract arena a hierarchy build of `rs` returns.
pub open spec fn forest_views(rs: Seq<Record>) -> Seq<NodeView> {
    Seq::new(node_ids(rs).len(), |t: int| forest_node(rs, t))
}

/// Serve a hierarchy request: collect the root's descendants, fetch their
/// records, build the tree, and serialize the subtree at the root as JSON.
/// Fails with `DanglingParent` when a fetched record declares a parent
/// outside the fetched set, with `NotFound` when no fetched record holds the
/// root's content, and with `IndexCorrupt` when the parent declarations
/// cycle through the root, which no tree text can render.
pub fn get_orbit_hierarchy_json(s: &Store, input: OrbitHierarchyInput) -> (r: Result<
    String,
    IndexError,
>)
    ensures
        ({
            let rs = selected_records(s.items@, *s, input.orbit_entry_hash);
            let nids = node_ids(rs);
            &&& (dangling(rs) ==> r == Err::<String, IndexError>(IndexError::DanglingParent))
            &&& (!dangling(rs) && !nids.contains(input.orbit_entry_hash) ==> r == Err::<
                String,
                IndexError,
            >(IndexError::NotFound))
            &&& (!dangling(rs) && nids.contains(input.orbit_entry_hash) ==> (match json_of_node(
                forest_views(rs),
                nids.index_of(input.orbit_entry_hash),
                nids.len() as nat,
            ) {
                Option::Some(out) => (match r {
                    Result::Ok(x) => x@ == out,
                    Result::Err(_) => false,
                }),
                Option::None => r == Err::<String, IndexError>(IndexError::IndexCorrupt),
            }))
        }),
{
    let root = input.orbit_entry_hash;
    let reach = collect_descendants(s, root);
    let n = s.items.len();
    let mut selected: Vec<Record> = Vec::new();
    let mut k: usize = 0;
    while k < n
        invariant
            n == s.items@.len(),
            k <= n,
            forall|x: Id| reach@.contains(x) <==> reaches(*s, root, x),
            selected@ == selected_records(s.items@.take(k as int), *s, root),
        decreases n - k,
    {
        proof {
            assert(s.items@.take(k + 1).drop_last() =~= s.items@.take(k as int));
            assert(s.items@.take(k + 1).last() == s.items@[k as int]);
        }
        match &s.items[k] {
            Stored::Rec(rec) => {
                if contains_id(&reach, rec.entry_hash) {
                    selected.push(rec.clone());
                }
            },
            _ => {},
        }
        k = k + 1;
    }
    proof {
        assert(s.items@.take(n as int) =~= s.items@);
    }
    let forest = match build_tree(&selected) {
        Ok(f) => f,
        Err(e) => {
            return Err(e);
        },
    };
    let ghost rs = selected@;
    proof {
        lemma_node_ids(rs);
    }
    let q = match find_node(&forest.nodes, root) {
        Some(q) => q,
        None => {
            proof {
                let nids = node_ids(rs);
                if nids.contains(root) {
                    let w = choose|w: int| 0 <= w < nids.len() && nids[w] == root;
                    assert(forest.nodes@[w]@ == forest_node(rs, w));
                    assert(forest.nodes@[w].id == root);
                    assert(false);
                }
            }
            return Err(IndexError::NotFound);
        },
    };
    let fuel = forest.nodes.len();
    proof {
        let nids = node_ids(rs);
        assert(forest.nodes@[q as int]@ == forest_node(rs, q as int));
        assert(nids[q as int] == root);
        assert(nids.contains(root));
        let io = nids.index_of(root);
        assert(0 <= io < nids.len() && nids[io] == root);
        assert(io == q as int);
        assert forall|u: int| 0 <= u < forest.nodes@.len() implies views_of(forest.nodes@)[u]
            == forest_views(rs)[u] by {
            assert(forest.nodes@[u]@ == forest_node(rs, u));
        }
        assert(views_of(forest.nodes@) =~= forest_views(rs));
    }
    match render_node(&forest.nodes, q, fuel) {
        Some(out) => Ok(out),
        None => Err(IndexError::IndexCorrupt),
    }
}

/// Collecting twice with no intervening mutation yields identical sets: each
/// run's result is pinned to the same reachable set, whatever order the
/// traversal found it in.
pub proof fn lemma_collect_idempotent(s: Store, root_id: Id, r1: Seq<Id>, r2: Seq<Id>)
    requires
        forall|x: Id| r1.contains(x) <==> reaches(s, root_id, x),
        forall|x: Id| r2.contains(x) <==> reaches(s, root_id, x),
    ensures
        r1.to_set() == r2.to_set(),
{
    assert(r1.to_set() =~= r2.to_set());
}

} // verus!
