use vstd::prelude::*;

use crate::error::IndexError;
use crate::orbit::{Id, Orbit, Record, same_content};

verus! {

/// The kind of a secondary, deletable edge.
#[derive(Clone, Copy, Debug, PartialEq, Eq, Structural)]
pub enum EdgeTag {
    /// From a derived name-prefix key to an entity record.
    OrbitsPrefixPath,
    /// From a container ("sphere") to an entity record.
    SphereToOrbit,
    /// From a parent entity's content identifier to a child's.
    OrbitParentToChild,
}

/// A typed, directed, deletable pointer between identifiers.
///
/// Edge identifiers are handed out in creation order, so an edge's `id`
/// also serves as its creation stamp.
pub struct Edge {
    pub id: usize,
    pub from: Id,
    pub to: Id,
    pub tag: EdgeTag,
    pub payload: String,
}

impl Clone for Edge {
    fn clone(&self) -> (r: Self)
        ensures
            r == *self,
    {
        Edge {
            id: self.id,
            from: self.from,
            to: self.to,
            tag: self.tag,
            payload: self.payload.clone(),
        }
    }
}

/// One thing held at an identifier of the append-only store: an entity
/// record, an entity content entry, a derived prefix-key entry, or a
/// tombstone over an earlier identifier.
pub enum Stored {
    Rec(Record),
    Content(Orbit),
    PathKey(String),
    Tombstone(Id),
}

/// The record held at an identifier (meaningful only when one is held there).
pub open spec fn rec_of(it: Stored) -> Record {
    match it {
        Stored::Rec(r) => r,
        _ => arbitrary(),
    }
}

/// The content entry held at an identifier (meaningful only when one is held there).
pub open spec fn content_of(it: Stored) -> Orbit {
    match it {
        Stored::Content(o) => o,
        _ => arbitrary(),
    }
}

/// The prefix key held at an identifier (meaningful only when one is held there).
pub open spec fn path_of(it: Stored) -> Seq<char> {
    match it {
        Stored::PathKey(s) => s@,
        _ => arbitrary(),
    }
}

/// The index of the first element satisfying `p`, scanning from the front.
pub open spec fn find_first<T>(s: Seq<T>, p: spec_fn(T) -> bool) -> Option<int>
    decreases s.len(),
{
    if s.len() == 0 {
        None
    } else if p(s[0]) {
        Some(0int)
    } else {
        match find_first(s.drop_first(), p) {
            Some(i) => Some(i + 1),
            None => None,
        }
    }
}

/// `find_first` returns the first match: a match with nothing matching
/// before it, and `None` exactly when nothing matches at all.
pub proof fn lemma_find_first<T>(s: Seq<T>, p: spec_fn(T) -> bool)
    ensures
        match find_first(s, p) {
            Some(i) => 0 <= i < s.len() && p(s[i]) && (forall|j: int| 0 <= j < i ==> !p(s[j])),
            None => forall|j: int| 0 <= j < s.len() ==> !p(s[j]),
        },
    decreases s.len(),
{
    if s.len() > 0 && !p(s[0]) {
        let rest = s.drop_first();
        lemma_find_first(rest, p);
        match find_first(rest, p) {
            Some(i) => {
                assert(find_first(s, p) == Some(i + 1));
                assert(rest[i] == s[i + 1]);
                assert forall|j: int| 0 <= j < i + 1 implies !p(s[j]) by {
                    if j > 0 {
                        assert(rest[j - 1] == s[j]);
                        assert(!p(rest[j - 1]));
                    }
                }
            },
            None => {
                assert forall|j: int| 0 <= j < s.len() implies !p(s[j]) by {
                    if j > 0 {
                        assert(rest[j - 1] == s[j]);
                        assert(!p(rest[j - 1]));
                    }
                }
            },
        }
    }
}

/// Matcher for a content entry equal to `orbit`.
pub open spec fn content_pred(orbit: Orbit) -> spec_fn(Stored) -> bool {
    |it: Stored| it is Content && same_content(content_of(it), orbit)
}

/// Where the content entry for `orbit` sits, if it was already interned.
pub open spec fn find_content(items: Seq<Stored>, orbit: Orbit) -> Option<int> {
    find_first(items, content_pred(orbit))
}

/// Matcher for a prefix-key entry equal to `key`.
pub open spec fn path_pred(key: Seq<char>) -> spec_fn(Stored) -> bool {
    |it: Stored| it is PathKey && path_of(it) == key
}

/// Where the prefix-key entry for `key` sits, if it was already interned.
pub open spec fn find_path(items: Seq<Stored>, key: Seq<char>) -> Option<int> {
    find_first(items, path_pred(key))
}

/// Matcher for the edge with identifier `eid`.
pub open spec fn edge_id_pred(eid: usize) -> spec_fn(Edge) -> bool {
    |e: Edge| e.id == eid
}

/// Where the edge with identifier `eid` sits in the edge list, if anywhere.
pub open spec fn find_edge_by_id(edges: Seq<Edge>, eid: usize) -> Option<int> {
    find_first(edges, edge_id_pred(eid))
}

/// Matcher for an edge with the given origin, target and tag.
pub open spec fn edge_triple_pred(from: Id, to: Id, tag: EdgeTag) -> spec_fn(Edge) -> bool {
    |e: Edge| e.from == from && e.to == to && e.tag == tag
}

/// The edge list without its first edge from `from` to `to` under `tag`;
/// the list unchanged when there is none.
pub open spec fn without_first_edge(edges: Seq<Edge>, from: Id, to: Id, tag: EdgeTag) -> Seq<
    Edge,
> {
    match find_first(edges, edge_triple_pred(from, to, tag)) {
        Option::Some(i) => edges.remove(i),
        Option::None => edges,
    }
}

/// The edges leaving `from` under `tag`, in creation order.
pub open spec fn edges_matching(edges: Seq<Edge>, from: Id, tag: EdgeTag) -> Seq<Edge>
    decreases edges.len(),
{
    if edges.len() == 0 {
        Seq::empty()
    } else {
        let rest = edges_matching(edges.drop_last(), from, tag);
        if edges.last().from == from && edges.last().tag == tag {
            rest.push(edges.last())
        } else {
            rest
        }
    }
}

/// Every element of `edges_matching` is an edge of the list with the asked
/// origin and tag, and every such edge of the list is an element of it.
pub proof fn lemma_edges_matching(edges: Seq<Edge>, from: Id, tag: EdgeTag)
    ensures
        forall|k: int|
            0 <= k < edges_matching(edges, from, tag).len() ==> {
                let e = #[trigger] edges_matching(edges, from, tag)[k];
                e.from == from && e.tag == tag && edges.contains(e)
            },
        forall|j: int|
            0 <= j < edges.len() && edges[j].from == from && edges[j].tag == tag
                ==> edges_matching(edges, from, tag).contains(#[trigger] edges[j]),
    decreases edges.len(),
{
    if edges.len() > 0 {
        lemma_edges_matching(edges.drop_last(), from, tag);
        assert(forall|j: int| 0 <= j < edges.len() - 1 ==> edges.drop_last()[j] == edges[j]);
        assert forall|k: int| 0 <= k < edges_matching(edges, from, tag).len() implies {
            let e = #[trigger] edges_matching(edges, from, tag)[k];
            e.from == from && e.tag == tag && edges.contains(e)
        } by {
            let rest = edges_matching(edges.drop_last(), from, tag);
            if k < rest.len() {
                let e = rest[k];
                assert(edges.drop_last().contains(e));
                let j = choose|j: int| 0 <= j < edges.drop_last().len() && edges.drop_last()[j] == e;
                assert(edges[j] == e);
            }
        }
        assert forall|j: int|
            0 <= j < edges.len() && edges[j].from == from && edges[j].tag == tag implies
            edges_matching(edges, from, tag).contains(edges[j]) by {
            let rest = edges_matching(edges.drop_last(), from, tag);
            if j < edges.len() - 1 {
                assert(edges.drop_last()[j] == edges[j]);
                assert(rest.contains(edges[j]));
                let k = choose|k: int| 0 <= k < rest.len() && rest[k] == edges[j];
                if edges.last().from == from && edges.last().tag == tag {
                    assert(edges_matching(edges, from, tag)[k] == edges[j]);
                } else {
                    assert(edges_matching(edges, from, tag)[k] == edges[j]);
                }
            } else {
                let m = edges_matching(edges, from, tag);
                assert(m[m.len() - 1] == edges[j]);
            }
        }
    }
}

/// Well-formedness of one stored item with respect to the whole sequence.
pub open spec fn item_ok(items: Seq<Stored>, i: int) -> bool {
    match items[i] {
        Stored::Rec(r) => {
            &&& r.id == i
            &&& r.entry_hash < items.len()
            &&& items[r.entry_hash as int] is Content
            &&& same_content(content_of(items[r.entry_hash as int]), r.orbit)
            &&& match r.supersedes {
                Option::Some(p) => {
                    &&& p < i
                    &&& items[p as int] is Rec
                    &&& rec_of(items[p as int]).successor == Option::Some(r.id)
                },
                Option::None => true,
            }
            &&& match r.successor {
                Option::Some(sx) => {
                    &&& i < sx < items.len()
                    &&& items[sx as int] is Rec
                    &&& rec_of(items[sx as int]).supersedes == Option::Some(r.id)
                },
                Option::None => true,
            }
        },
        Stored::Tombstone(t) => t < i,
        _ => true,
    }
}

/// The append-only record store together with the edge index.
///
/// `items` holds everything ever persisted; an identifier is a position in
/// it, so identifiers are handed out in creation order and nothing is ever
/// mutated in place except a record's supersession pointer, which the store
/// itself assigns exactly once at update time.  `edges` holds the live
/// (not yet deleted) secondary edges; `edges_created` counts every edge
/// ever created, so edge identifiers are never reused.
pub struct Store {
    pub items: Vec<Stored>,
    pub edges: Vec<Edge>,
    pub edges_created: usize,
}

impl Store {
    /// Structural invariant of the store.
    pub open spec fn wf(self) -> bool {
        &&& forall|i: int| 0 <= i < self.items@.len() ==> item_ok(self.items@, i)
        &&& forall|i: int, j: int|
            0 <= i < j < self.items@.len() && self.items@[i] is Content && self.items@[j] is Content
                ==> !same_content(content_of(self.items@[i]), content_of(self.items@[j]))
        &&& forall|i: int, j: int|
            0 <= i < j < self.items@.len() && self.items@[i] is PathKey && self.items@[j] is PathKey
                ==> path_of(self.items@[i]) != path_of(self.items@[j])
        &&& forall|i: int, j: int|
            0 <= i < j < self.edges@.len() ==> self.edges@[i].id < self.edges@[j].id
        &&& forall|i: int| 0 <= i < self.edges@.len() ==> #[trigger] self.edges@[i].id < self.edges_created
    }

    /// Whether a record is held at `id`.
    pub open spec fn is_rec(self, id: int) -> bool {
        0 <= id < self.items@.len() && self.items@[id] is Rec
    }

    /// The record held at `id` (meaningful only when `is_rec(id)`).
    pub open spec fn rec_at(self, id: int) -> Record {
        rec_of(self.items@[id])
    }

    /// An empty store.
    pub fn new() -> (s: Store)
        ensures
            s.wf(),
            s.items@ == Seq::<Stored>::empty(),
            s.edges@ == Seq::<Edge>::empty(),
            s.edges_created == 0,
    {
        Store { items: Vec::new(), edges: Vec::new(), edges_created: 0 }
    }

    /// Fetch by identifier: the record held at `id`, if one is.
    pub fn get_record(&self, id: Id) -> (r: Option<Record>)
        ensures
            match r {
                Option::Some(rec) => self.is_rec(id as int) && rec == self.rec_at(id as int),
                Option::None => !self.is_rec(id as int),
            },
    {
        if id < self.items.len() {
            match &self.items[id] {
                Stored::Rec(rec) => Some(rec.clone()),
                _ => None,
            }
        } else {
            None
        }
    }

    /// The store-native supersession pointer of the record at `id`, present
    /// only if that record was later updated.
    pub fn get_successor(&self, id: Id) -> (r: Option<Id>)
        ensures
            r == (if self.is_rec(id as int) {
                self.rec_at(id as int).successor
            } else {
                Option::<Id>::None
            }),
    {
        if id < self.items.len() {
            match &self.items[id] {
                Stored::Rec(rec) => rec.successor,
                _ => None,
            }
        } else {
            None
        }
    }

    /// Intern `orbit` as a content entry: content addressing, so identical
    /// content yields the identifier it already has.
    pub fn intern_content(&mut self, orbit: &Orbit) -> (id: Id)
        requires
            old(self).wf(),
        ensures
            final(self).wf(),
            final(self).edges@ == old(self).edges@,
            final(self).edges_created == old(self).edges_created,
            old(self).items@.is_prefix_of(final(self).items@),
            id < final(self).items@.len(),
            final(self).items@[id as int] is Content,
            same_content(content_of(final(self).items@[id as int]), *orbit),
            (match find_content(old(self).items@, *orbit) {
                Option::Some(i) => final(self).items@ == old(self).items@ && id == i,
                Option::None => final(self).items@ == old(self).items@.push(Stored::Content(*orbit))
                    && id == old(self).items@.len(),
            }),
    {
        let n = self.items.len();
        let mut k: usize = 0;
        while k < n
            invariant
                *self == *old(self),
                old(self).wf(),
                n == self.items@.len(),
                k <= n,
                forall|j: int| 0 <= j < k ==> !(content_pred(*orbit)(self.items@[j])),
            decreases n - k,
        {
            let matched = match &self.items[k] {
                Stored::Content(o) => o.content_eq(orbit),
                _ => false,
            };
            if matched {
                proof {
                    lemma_find_first(self.items@, content_pred(*orbit));
                }
                return k;
            }
            k = k + 1;
        }
        proof {
            lemma_find_first(self.items@, content_pred(*orbit));
        }
        self.items.push(Stored::Content(orbit.clone()));
        proof {
            assert(self.items@ =~= old(self).items@.push(Stored::Content(*orbit)));
            assert forall|i: int| 0 <= i < self.items@.len() implies item_ok(self.items@, i) by {
                if i < self.items@.len() - 1 {
                    assert(item_ok(old(self).items@, i));
                }
            }
        }
        n
    }

    /// Intern `key` as a derived prefix-key entry, content-addressed.
    pub fn intern_path(&mut self, key: &String) -> (id: Id)
        requires
            old(self).wf(),
        ensures
            final(self).wf(),
            final(self).edges@ == old(self).edges@,
            final(self).edges_created == old(self).edges_created,
            old(self).items@.is_prefix_of(final(self).items@),
            id < final(self).items@.len(),
            final(self).items@[id as int] is PathKey,
            path_of(final(self).items@[id as int]) == key@,
            (match find_path(old(self).items@, key@) {
                Option::Some(i) => final(self).items@ == old(self).items@ && id == i,
                Option::None => final(self).items@ == old(self).items@.push(Stored::PathKey(*key))
                    && id == old(self).items@.len(),
            }),
    {
        let n = self.items.len();
        let mut k: usize = 0;
        while k < n
            invariant
                *self == *old(self),
                old(self).wf(),
                n == self.items@.len(),
                k <= n,
                forall|j: int| 0 <= j < k ==> !(path_pred(key@)(self.items@[j])),
            decreases n - k,
        {
            let matched = match &self.items[k] {
                Stored::PathKey(s) => String::eq(s, key),
                _ => false,
            };
            if matched {
                proof {
                    lemma_find_first(self.items@, path_pred(key@));
                }
                return k;
            }
            k = k + 1;
        }
        proof {
            lemma_find_first(self.items@, path_pred(key@));
        }
        self.items.push(Stored::PathKey(key.clone()));
        proof {
            assert(self.items@[self.items@.len() - 1] == Stored::PathKey(*key));
            assert forall|i: int| 0 <= i < self.items@.len() implies item_ok(self.items@, i) by {
                if i < self.items@.len() - 1 {
                    assert(item_ok(old(self).items@, i));
                }
            }
            assert(self.items@ =~= old(self).items@.push(Stored::PathKey(*key)));
        }
        n
    }

    /// Persist `orbit` as a fresh record with no predecessor.
    pub fn append_record(&mut self, orbit: Orbit) -> (r: Record)
        requires
            old(self).wf(),
        ensures
            final(self).wf(),
            final(self).edges@ == old(self).edges@,
            final(self).edges_created == old(self).edges_created,
            old(self).items@.is_prefix_of(final(self).items@),
            r.id == final(self).items@.len() - 1,
            final(self).items@[r.id as int] == Stored::Rec(r),
            r.supersedes is None,
            r.successor is None,
            same_content(r.orbit, orbit),
            final(self).is_rec(r.id as int),
            (match find_content(old(self).items@, orbit) {
                Option::Some(i) => r.entry_hash == i
                    && final(self).items@ == old(self).items@.push(Stored::Rec(r)),
                Option::None => r.entry_hash == old(self).items@.len()
                    && final(self).items@ == old(self).items@.push(Stored::Content(orbit)).push(Stored::Rec(r)),
            }),
    {
        let entry_hash = self.intern_content(&orbit);
        let ghost mid = *self;
        let id = self.items.len();
        let rec = Record { id, entry_hash, supersedes: None, successor: None, orbit };
        self.items.push(Stored::Rec(rec.clone()));
        proof {
            let items = self.items@;
            assert forall|i: int| 0 <= i < items.len() implies item_ok(items, i) by {
                if i < items.len() - 1 {
                    assert(item_ok(mid.items@, i));
                    assert(items[i] == mid.items@[i]);
                }
            }
        }
        rec
    }

    /// Persist `orbit` as a record superseding `previous`, assigning the
    /// store-native supersession pointer.  Rejects an identifier that holds
    /// no record, and a record that already has a successor: the store
    /// enforces a single successor per record at write time.
    pub fn append_update(&mut self, previous: Id, orbit: Orbit) -> (r: Result<Record, IndexError>)
        requires
            old(self).wf(),
        ensures
            final(self).wf(),
            final(self).edges@ == old(self).edges@,
            final(self).edges_created == old(self).edges_created,
            previous >= old(self).items@.len() ==> r == Err::<Record, IndexError>(IndexError::NotFound)
                && *final(self) == *old(self),
            previous < old(self).items@.len() && !(old(self).items@[previous as int] is Rec)
                ==> r == Err::<Record, IndexError>(IndexError::MalformedChain) && *final(self) == *old(self),
            old(self).is_rec(previous as int) && old(self).rec_at(previous as int).successor is Some
                ==> r == Err::<Record, IndexError>(IndexError::MalformedChain) && *final(self) == *old(self),
            old(self).is_rec(previous as int) && old(self).rec_at(previous as int).successor is None
                ==> r is Ok,
            (match r {
                Result::Ok(rec) => {
                    &&& old(self).is_rec(previous as int)
                    &&& old(self).rec_at(previous as int).successor is None
                    &&& final(self).is_rec(previous as int)
                    &&& rec.id == final(self).items@.len() - 1
                    &&& old(self).items@.len() <= rec.id
                    &&& final(self).items@[rec.id as int] == Stored::Rec(rec)
                    &&& final(self).is_rec(rec.id as int)
                    &&& rec.supersedes == Option::Some(previous)
                    &&& rec.successor is None
                    &&& same_content(rec.orbit, orbit)
                    &&& final(self).rec_at(previous as int) == Record {
                        successor: Option::Some(rec.id),
                        ..old(self).rec_at(previous as int)
                    }
                    &&& forall|i: int|
                        0 <= i < old(self).items@.len() && i != previous
                            ==> final(self).items@[i] == old(self).items@[i]
                    &&& final(self).items@.len() <= old(self).items@.len() + 2
                    &&& (match find_content(old(self).items@, orbit) {
                        Option::Some(ci) => rec.entry_hash == ci
                            && final(self).items@.len() == old(self).items@.len() + 1,
                        Option::None => rec.entry_hash == old(self).items@.len()
                            && final(self).items@.len() == old(self).items@.len() + 2
                            && final(self).items@[rec.entry_hash as int] == Stored::Content(orbit),
                    })
                },
                Result::Err(e) => {
                    &&& *final(self) == *old(self)
                    &&& (e == IndexError::NotFound || e == IndexError::MalformedChain)
                },
            }),
    {
        if previous >= self.items.len() {
            return Err(IndexError::NotFound);
        }
        let prev_rec = match &self.items[previous] {
            Stored::Rec(rec) => rec.clone(),
            _ => {
                return Err(IndexError::MalformedChain);
            },
        };
        if prev_rec.successor.is_some() {
            return Err(IndexError::MalformedChain);
        }
        let entry_hash = self.intern_content(&orbit);
        let ghost mid = *self;
        let id = self.items.len();
        let patched = Record { successor: Some(id), ..prev_rec };
        self.items.set(previous, Stored::Rec(patched));
        let rec = Record { id, entry_hash, supersedes: Some(previous), successor: None, orbit };
        self.items.push(Stored::Rec(rec.clone()));
        proof {
            let items = self.items@;
            assert(item_ok(old(self).items@, previous as int));
            assert(mid.items@[previous as int] == old(self).items@[previous as int]);
            assert(items[previous as int] == Stored::Rec(patched));
            assert(items[id as int] == Stored::Rec(rec));
            assert forall|i: int| 0 <= i < items.len() implies item_ok(items, i) by {
                if i != previous && i < items.len() - 1 {
                    assert(item_ok(mid.items@, i));
                    assert(items[i] == mid.items@[i]);
                }
                if i == previous {
                    assert(item_ok(mid.items@, i));
                }
            }
            assert forall|i: int, j: int|
                0 <= i < j < items.len() && items[i] is Content && items[j] is Content implies
                !same_content(content_of(items[i]), content_of(items[j])) by {
                assert(i != previous && j != previous && i < items.len() - 1 && j < items.len() - 1);
                assert(items[i] == mid.items@[i]);
                assert(items[j] == mid.items@[j]);
            }
            assert forall|i: int, j: int|
                0 <= i < j < items.len() && items[i] is PathKey && items[j] is PathKey implies
                path_of(items[i]) != path_of(items[j]) by {
                assert(i != previous && j != previous && i < items.len() - 1 && j < items.len() - 1);
                assert(items[i] == mid.items@[i]);
                assert(items[j] == mid.items@[j]);
            }
        }
        Ok(rec)
    }

    /// Persist a tombstone marker over `target`.
    pub fn append_tombstone(&mut self, target: Id) -> (r: Result<Id, IndexError>)
        requires
            old(self).wf(),
        ensures
            final(self).wf(),
            final(self).edges@ == old(self).edges@,
            final(self).edges_created == old(self).edges_created,
            target >= old(self).items@.len() ==> r == Err::<Id, IndexError>(IndexError::NotFound)
                && *final(self) == *old(self),
            target < old(self).items@.len() ==> r == Ok::<Id, IndexError>(old(self).items@.len() as usize)
                && final(self).items@ == old(self).items@.push(Stored::Tombstone(target)),
    {
        if target >= self.items.len() {
            return Err(IndexError::NotFound);
        }
        let id = self.items.len();
        self.items.push(Stored::Tombstone(target));
        proof {
            let items = self.items@;
            assert forall|i: int| 0 <= i < items.len() implies item_ok(items, i) by {
                if i < items.len() - 1 {
                    assert(item_ok(old(self).items@, i));
                }
            }
        }
        Ok(id)
    }

    /// Create a typed, tagged edge; returns its identifier.
    pub fn create_edge(&mut self, from: Id, to: Id, tag: EdgeTag, payload: String) -> (eid: usize)
        requires
            old(self).wf(),
            old(self).edges_created < usize::MAX,
        ensures
            final(self).wf(),
            final(self).items@ == old(self).items@,
            eid == old(self).edges_created,
            final(self).edges_created == old(self).edges_created + 1,
            final(self).edges@ == old(self).edges@.push((Edge { id: eid, from, to, tag, payload })),
    {
        let eid = self.edges_created;
        self.edges.push(Edge { id: eid, from, to, tag, payload });
        self.edges_created = eid + 1;
        eid
    }

    /// Delete the edge with identifier `eid`, if it is live; deleting an
    /// absent edge leaves the index unchanged.
    pub fn delete_edge(&mut self, eid: usize)
        requires
            old(self).wf(),
        ensures
            final(self).wf(),
            final(self).items@ == old(self).items@,
            final(self).edges_created == old(self).edges_created,
            (match find_edge_by_id(old(self).edges@, eid) {
                Option::Some(i) => final(self).edges@ == old(self).edges@.remove(i),
                Option::None => final(self).edges@ == old(self).edges@,
            }),
    {
        let n = self.edges.len();
        let mut k: usize = 0;
        while k < n
            invariant
                *self == *old(self),
                old(self).wf(),
                n == self.edges@.len(),
                k <= n,
                forall|j: int| 0 <= j < k ==> !(edge_id_pred(eid)(self.edges@[j])),
            decreases n - k,
        {
            if self.edges[k].id == eid {
                proof {
                    lemma_find_first(self.edges@, edge_id_pred(eid));
                }
                self.edges.remove(k);
                proof {
                    let olde = old(self).edges@;
                    let newe = self.edges@;
                    olde.remove_ensures(k as int);
                    assert forall|a: int, b: int| 0 <= a < b < newe.len() implies newe[a].id
                        < newe[b].id by {
                        let a2: int = if a < k { a } else { a + 1 };
                        let b2: int = if b < k { b } else { b + 1 };
                        assert(newe[a] == olde[a2]);
                        assert(newe[b] == olde[b2]);
                    }
                    assert forall|a: int| 0 <= a < newe.len() implies #[trigger] newe[a].id
                        < self.edges_created by {
                        let a2: int = if a < k { a } else { a + 1 };
                        assert(newe[a] == olde[a2]);
                    }
                }
                return ;
            }
            k = k + 1;
        }
        proof {
            lemma_find_first(self.edges@, edge_id_pred(eid));
        }
    }

    /// Delete the first live edge from `from` to `to` under `tag`, if any:
    /// the deterministic first-match fallback used when a container edge is
    /// relocated.  An unexpected edge count is tolerated, not an error.
    pub fn remove_first_edge(&mut self, from: Id, to: Id, tag: EdgeTag)
        requires
            old(self).wf(),
        ensures
            final(self).wf(),
            final(self).items@ == old(self).items@,
            final(self).edges_created == old(self).edges_created,
            final(self).edges@ == without_first_edge(old(self).edges@, from, to, tag),
    {
        let n = self.edges.len();
        let mut k: usize = 0;
        while k < n
            invariant
                *self == *old(self),
                old(self).wf(),
                n == self.edges@.len(),
                k <= n,
                forall|j: int| 0 <= j < k ==> !(edge_triple_pred(from, to, tag)(self.edges@[j])),
            decreases n - k,
        {
            let e = &self.edges[k];
            if e.from == from && e.to == to && e.tag == tag {
                proof {
                    lemma_find_first(self.edges@, edge_triple_pred(from, to, tag));
                }
                self.edges.remove(k);
                proof {
                    let olde = old(self).edges@;
                    let newe = self.edges@;
                    olde.remove_ensures(k as int);
                    assert forall|a: int, b: int| 0 <= a < b < newe.len() implies newe[a].id
                        < newe[b].id by {
                        let a2: int = if a < k { a } else { a + 1 };
                        let b2: int = if b < k { b } else { b + 1 };
                        assert(newe[a] == olde[a2]);
                        assert(newe[b] == olde[b2]);
                    }
                    assert forall|a: int| 0 <= a < newe.len() implies #[trigger] newe[a].id
                        < self.edges_created by {
                        let a2: int = if a < k { a } else { a + 1 };
                        assert(newe[a] == olde[a2]);
                    }
                }
                return ;
            }
            k = k + 1;
        }
        proof {
            lemma_find_first(self.edges@, edge_triple_pred(from, to, tag));
        }
    }

    /// Enumerate the live edges leaving `from` under `tag`, in creation
    /// order.  An empty answer means "no children / no index entry", never
    /// an error.
    pub fn get_edges(&self, from: Id, tag: EdgeTag) -> (r: Vec<Edge>)
        ensures
            r@ == edges_matching(self.edges@, from, tag),
    {
        let n = self.edges.len();
        let mut r: Vec<Edge> = Vec::new();
        let mut k: usize = 0;
        while k < n
            invariant
                n == self.edges@.len(),
                k <= n,
                r@ == edges_matching(self.edges@.take(k as int), from, tag),
            decreases n - k,
        {
            let e = &self.edges[k];
            if e.from == from && e.tag == tag {
                r.push(e.clone());
            }
            proof {
                assert(self.edges@.take(k + 1).drop_last() =~= self.edges@.take(k as int));
                assert(self.edges@.take(k + 1).last() == self.edges@[k as int]);
            }
            k = k + 1;
        }
        proof {
            assert(self.edges@.take(n as int) =~= self.edges@);
        }
        r
    }
}

} // verus!
