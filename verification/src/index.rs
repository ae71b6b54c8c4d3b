use vstd::prelude::*;
use vstd::string::StrSliceExecFns;

use crate::error::IndexError;
use crate::orbit::{Id, Orbit, Record, SphereOrbitsQueryParams, UpdateOrbitInput, same_content};
use crate::store::{
    Edge, EdgeTag, Store, Stored, content_of, edge_triple_pred, edges_matching, find_first,
    find_path, item_ok, lemma_edges_matching, lemma_find_first, path_pred, rec_of,
    without_first_edge,
};
use crate::resolve::{latest_from, lemma_fresh_record_resolves, resolve_latest, resolve_spec};

verus! {

/// What lower-casing a name returns.
pub uninterp spec fn lower_of(s: Seq<char>) -> Seq<char>;

/// Relies on str::to_lowercase: the lowercase equivalent of the string,
/// which depends on the characters alone.
#[verifier::external_body]
fn lowercase(s: &String) -> (r: String)
    ensures
        r@ == lower_of(s@),
{
    s.to_lowercase()
}

/// Whether a prefix key can be derived from `name`: the lower-cased name
/// must have at least three characters.
pub open spec fn has_prefix_key(name: Seq<char>) -> bool {
    lower_of(name).len() >= 3
}

/// The derived prefix key of `name`: the first three characters of the
/// lower-cased name.
pub open spec fn prefix_key(name: Seq<char>) -> Seq<char> {
    lower_of(name).subrange(0, 3)
}

/// Derive the prefix key of an entity name, failing with `InvalidName` when
/// the name is too short for one.
pub fn derive_prefix(name: &String) -> (r: Result<String, IndexError>)
    ensures
        (match r {
            Result::Ok(p) => has_prefix_key(name@) && p@ == prefix_key(name@),
            Result::Err(e) => !has_prefix_key(name@) && e == IndexError::InvalidName,
        }),
{
    let low = lowercase(name);
    let n = low.as_str().unicode_len();
    if n < 3 {
        return Err(IndexError::InvalidName);
    }
    let p = low.as_str().substring_char(0, 3);
    Ok(p.to_owned())
}

/// The identifier of the prefix-key entry for `key` (meaningful only when
/// one is interned).
pub open spec fn path_id_of(items: Seq<Stored>, key: Seq<char>) -> Id {
    match find_path(items, key) {
        Option::Some(i) => i as usize,
        Option::None => arbitrary(),
    }
}

/// A match at `pid` with no match before it pins `find_path` down.
proof fn lemma_path_find(post: Seq<Stored>, key: Seq<char>, pid: usize)
    requires
        pid < post.len(),
        path_pred(key)(post[pid as int]),
        forall|j: int| 0 <= j < pid ==> !(path_pred(key)(post[j])),
    ensures
        find_path(post, key) == Some(pid as int),
        path_id_of(post, key) == pid,
{
    lemma_find_first(post, path_pred(key));
}

/// The shape of a prefix-index edge: from the derived key of `name` to
/// `target`, carrying the name itself as payload.
pub open spec fn prefix_edge_ok(e: Edge, items: Seq<Stored>, name: Seq<char>, target: Id) -> bool {
    &&& e.from == path_id_of(items, prefix_key(name))
    &&& e.to == target
    &&& e.tag == EdgeTag::OrbitsPrefixPath
    &&& e.payload@ == name
}

/// Persist an entity as a fresh record, without touching the secondary
/// indexes.  A created record resolves to itself until it is updated.
pub fn create_orbit(s: &mut Store, orbit: Orbit) -> (r: Record)
    requires
        old(s).wf(),
    ensures
        final(s).wf(),
        final(s).edges@ == old(s).edges@,
        final(s).edges_created == old(s).edges_created,
        old(s).items@.is_prefix_of(final(s).items@),
        final(s).items@.len() <= old(s).items@.len() + 2,
        r.id == final(s).items@.len() - 1,
        final(s).is_rec(r.id as int),
        r == final(s).rec_at(r.id as int),
        r.supersedes is None,
        r.successor is None,
        same_content(r.orbit, orbit),
        resolve_spec(*final(s), r.id) == Ok::<Record, IndexError>(r),
{
    let rec = s.append_record(orbit);
    proof {
        lemma_fresh_record_resolves(*s, rec.id);
    }
    rec
}

/// Secondary Index Manager, creation path: persist the entity as a new
/// record, derive its prefix key (rejecting a name that is too short),
/// and create the prefix edge, the container edge, and, when a parent is
/// declared, the parent-child edge.
pub fn create_my_orbit(s: &mut Store, orbit: Orbit) -> (r: Result<Record, IndexError>)
    requires
        old(s).wf(),
        old(s).edges_created + 3 <= usize::MAX,
    ensures
        final(s).wf(),
        (match r {
            Result::Ok(rec) => {
                &&& has_prefix_key(orbit.name@)
                &&& old(s).items@.is_prefix_of(final(s).items@)
                &&& final(s).is_rec(rec.id as int)
                &&& rec == final(s).rec_at(rec.id as int)
                &&& rec.id == final(s).items@.len() - 1
                &&& rec.supersedes is None
                &&& rec.successor is None
                &&& same_content(rec.orbit, orbit)
                &&& resolve_spec(*final(s), rec.id) == Ok::<Record, IndexError>(rec)
                &&& rec.entry_hash < final(s).items@.len()
                &&& final(s).items@[rec.entry_hash as int] is Content
                &&& same_content(content_of(final(s).items@[rec.entry_hash as int]), orbit)
                &&& final(s).edges@.len() == old(s).edges@.len() + (
                if orbit.parent_hash is Some {
                    3int
                } else {
                    2int
                })
                &&& final(s).edges@.subrange(0, old(s).edges@.len() as int) == old(s).edges@
                &&& prefix_edge_ok(
                    final(s).edges@[old(s).edges@.len() as int],
                    final(s).items@,
                    orbit.name@,
                    rec.id,
                )
                &&& ({
                    let e = final(s).edges@[old(s).edges@.len() as int + 1];
                    e.from == orbit.sphere_hash && e.to == rec.id && e.tag == EdgeTag::SphereToOrbit
                })
                &&& (match orbit.parent_hash {
                    Option::Some(p) => ({
                        let e = final(s).edges@[old(s).edges@.len() as int + 2];
                        e.from == p && e.to == rec.entry_hash && e.tag
                            == EdgeTag::OrbitParentToChild
                    }),
                    Option::None => true,
                })
            },
            Result::Err(e) => {
                &&& e == IndexError::InvalidName
                &&& !has_prefix_key(orbit.name@)
                &&& *final(s) == *old(s)
            },
        }),
        has_prefix_key(orbit.name@) <==> r is Ok,
{
    let key = match derive_prefix(&orbit.name) {
        Ok(key) => key,
        Err(e) => {
            return Err(e);
        },
    };
    let ghost s0 = *s;
    let pid = s.intern_path(&key);
    proof {
        lemma_find_first(s0.items@, path_pred(key@));
    }
    let name_copy = orbit.name.clone();
    let sphere_hash = orbit.sphere_hash;
    let parent_hash = orbit.parent_hash;
    let rec = s.append_record(orbit);
    let ghost s2 = *s;
    proof {
        assert forall|j: int| 0 <= j < pid implies !(path_pred(key@)(s2.items@[j])) by {
            assert(s2.items@[j] == s0.items@[j]);
        }
        lemma_path_find(s2.items@, key@, pid);
    }
    s.create_edge(pid, rec.id, EdgeTag::OrbitsPrefixPath, name_copy);
    s.create_edge(sphere_hash, rec.id, EdgeTag::SphereToOrbit, String::new());
    match parent_hash {
        Some(p) => {
            s.create_edge(p, rec.entry_hash, EdgeTag::OrbitParentToChild, String::new());
        },
        None => {},
    }
    proof {
        lemma_fresh_record_resolves(*s, rec.id);
        assert(item_ok(s.items@, rec.id as int));
        assert(final(s).edges@.subrange(0, s0.edges@.len() as int) =~= s0.edges@);
    }
    Ok(rec)
}

/// The edge relation that an update leaves behind: the first stale
/// container edge (old container to superseded record) is gone, a container
/// edge to the new record and a fresh prefix edge stand at the end.
pub open spec fn relocated_edges(
    olde: Seq<Edge>,
    newe: Seq<Edge>,
    old_sphere: Id,
    previous: Id,
    new_sphere: Id,
    new_id: Id,
) -> bool {
    let base = without_first_edge(olde, old_sphere, previous, EdgeTag::SphereToOrbit);
    &&& newe.len() == base.len() + 2
    &&& newe.subrange(0, base.len() as int) == base
    &&& ({
        let e = newe[base.len() as int];
        e.from == new_sphere && e.to == new_id && e.tag == EdgeTag::SphereToOrbit
    })
    &&& newe[base.len() as int + 1].tag == EdgeTag::OrbitsPrefixPath
    &&& newe[base.len() as int + 1].to == new_id
}

/// Secondary Index Manager, update path: persist the updated entity as a
/// record superseding `previous_orbit_hash`, derive the new prefix key and
/// create a fresh prefix edge (stale prefix edges are left behind: reads
/// re-resolve through the Version Resolver), and relocate the container
/// edge to the updated record, deleting the first stale one found.
pub fn update_orbit(s: &mut Store, input: UpdateOrbitInput) -> (r: Result<Record, IndexError>)
    requires
        old(s).wf(),
        old(s).edges_created + 2 <= usize::MAX,
    ensures
        final(s).wf(),
        (match r {
            Result::Ok(rec) => {
                &&& has_prefix_key(input.updated_orbit.name@)
                &&& old(s).is_rec(input.previous_orbit_hash as int)
                &&& old(s).rec_at(input.previous_orbit_hash as int).successor is None
                &&& final(s).is_rec(rec.id as int)
                &&& rec == final(s).rec_at(rec.id as int)
                &&& old(s).items@.len() <= rec.id
                &&& rec.supersedes == Option::Some(input.previous_orbit_hash)
                &&& rec.successor is None
                &&& same_content(rec.orbit, input.updated_orbit)
                &&& final(s).rec_at(input.previous_orbit_hash as int) == Record {
                    successor: Option::Some(rec.id),
                    ..old(s).rec_at(input.previous_orbit_hash as int)
                }
                &&& forall|i: int|
                    0 <= i < old(s).items@.len() && i != input.previous_orbit_hash
                        ==> final(s).items@[i] == old(s).items@[i]
                &&& resolve_spec(*final(s), rec.id) == Ok::<Record, IndexError>(rec)
                &&& resolve_spec(*final(s), input.previous_orbit_hash) == Ok::<
                    Record,
                    IndexError,
                >(rec)
                &&& relocated_edges(
                    old(s).edges@,
                    final(s).edges@,
                    old(s).rec_at(input.previous_orbit_hash as int).orbit.sphere_hash,
                    input.previous_orbit_hash,
                    input.updated_orbit.sphere_hash,
                    rec.id,
                )
                &&& prefix_edge_ok(
                    final(s).edges@[final(s).edges@.len() - 1],
                    final(s).items@,
                    input.updated_orbit.name@,
                    rec.id,
                )
            },
            Result::Err(e) => {
                &&& *final(s) == *old(s)
                &&& (e == IndexError::InvalidName && !has_prefix_key(input.updated_orbit.name@)
                    || e == IndexError::NotFound && input.previous_orbit_hash >= old(
                    s,
                ).items@.len() || e == IndexError::MalformedChain)
            },
        }),
        r is Err && !has_prefix_key(input.updated_orbit.name@) ==> r == Err::<
            Record,
            IndexError,
        >(IndexError::InvalidName),
        has_prefix_key(input.updated_orbit.name@) && input.previous_orbit_hash >= old(
            s,
        ).items@.len() ==> r == Err::<Record, IndexError>(IndexError::NotFound),
        has_prefix_key(input.updated_orbit.name@) && input.previous_orbit_hash < old(
            s,
        ).items@.len() && !(old(s).items@[input.previous_orbit_hash as int] is Rec) ==> r == Err::<
            Record,
            IndexError,
        >(IndexError::MalformedChain),
        has_prefix_key(input.updated_orbit.name@) && old(s).is_rec(input.previous_orbit_hash as int)
            && old(s).rec_at(input.previous_orbit_hash as int).successor is Some ==> r == Err::<
            Record,
            IndexError,
        >(IndexError::MalformedChain),
        has_prefix_key(input.updated_orbit.name@) && old(s).is_rec(input.previous_orbit_hash as int)
            && old(s).rec_at(input.previous_orbit_hash as int).successor is None ==> r is Ok,
{
    let UpdateOrbitInput { original_orbit_hash: _, previous_orbit_hash: previous, updated_orbit } =
        input;
    let key = match derive_prefix(&updated_orbit.name) {
        Ok(key) => key,
        Err(e) => {
            return Err(e);
        },
    };
    let prev_rec = match s.get_record(previous) {
        Some(rec) => rec,
        None => {
            if previous >= s.items.len() {
                return Err(IndexError::NotFound);
            }
            return Err(IndexError::MalformedChain);
        },
    };
    if prev_rec.successor.is_some() {
        return Err(IndexError::MalformedChain);
    }
    let old_sphere = prev_rec.orbit.sphere_hash;
    let new_sphere = updated_orbit.sphere_hash;
    let name_copy = updated_orbit.name.clone();
    let ghost s0 = *s;
    let pid = s.intern_path(&key);
    proof {
        lemma_find_first(s0.items@, path_pred(key@));
    }
    let rec = match s.append_update(previous, updated_orbit) {
        Ok(rec) => rec,
        Err(e) => {
            return Err(e);
        },
    };
    let ghost s2 = *s;
    proof {
        assert(item_ok(s2.items@, rec.id as int));
        assert forall|j: int| 0 <= j < pid implies !(path_pred(key@)(s2.items@[j])) by {
            if j == previous {
                assert(s2.items@[j] is Rec);
            } else {
                assert(s2.items@[j] == s0.items@[j]);
            }
        }
        lemma_path_find(s2.items@, key@, pid);
    }
    s.remove_first_edge(old_sphere, previous, EdgeTag::SphereToOrbit);
    s.create_edge(new_sphere, rec.id, EdgeTag::SphereToOrbit, String::new());
    s.create_edge(pid, rec.id, EdgeTag::OrbitsPrefixPath, name_copy);
    proof {
        lemma_fresh_record_resolves(*s, rec.id);
        assert(s.items@[previous as int] is Rec);
        assert(rec_of(s.items@[previous as int]).successor == Option::Some(rec.id));
        assert(latest_from(s.items@, rec.id as int) == rec.id);
        assert(latest_from(s.items@, previous as int) == latest_from(s.items@, rec.id as int));
        let base = without_first_edge(s0.edges@, old_sphere, previous, EdgeTag::SphereToOrbit);
        assert(final(s).edges@.subrange(0, base.len() as int) =~= base);
    }
    Ok(rec)
}

/// Tombstone an entity: the record itself is immutable and stays, a
/// tombstone marker is persisted over its identifier.
pub fn delete_orbit(s: &mut Store, original_orbit_hash: Id) -> (r: Result<Id, IndexError>)
    requires
        old(s).wf(),
    ensures
        final(s).wf(),
        original_orbit_hash >= old(s).items@.len() ==> r == Err::<Id, IndexError>(
            IndexError::NotFound,
        ) && *final(s) == *old(s),
        original_orbit_hash < old(s).items@.len() ==> r == Ok::<Id, IndexError>(
            old(s).items@.len() as usize,
        ) && final(s).items@ == old(s).items@.push(Stored::Tombstone(original_orbit_hash))
            && final(s).edges@ == old(s).edges@,
{
    s.append_tombstone(original_orbit_hash)
}

/// Resolving the target of every listed edge in order: the first failure
/// wins, otherwise the resolved records in edge order.
pub open spec fn resolve_targets(s: Store, edges: Seq<Edge>) -> Result<Seq<Record>, IndexError>
    decreases edges.len(),
{
    if edges.len() == 0 {
        Ok(Seq::empty())
    } else {
        match resolve_targets(s, edges.drop_last()) {
            Result::Ok(rs) => match resolve_spec(s, edges.last().to) {
                Result::Ok(r) => Ok(rs.push(r)),
                Result::Err(e) => Err(e),
            },
            Result::Err(e) => Err(e),
        }
    }
}

/// List a container: resolve the current version of every entity whose
/// container edge leaves `sphere_hash`, in edge-creation order.
pub fn get_all_my_sphere_orbits(s: &Store, params: SphereOrbitsQueryParams) -> (r: Result<
    Vec<Record>,
    IndexError,
>)
    requires
        s.wf(),
    ensures
        (match resolve_targets(
            *s,
            edges_matching(s.edges@, params.sphere_hash, EdgeTag::SphereToOrbit),
        ) {
            Result::Ok(rs) => r is Ok && (match r {
                Result::Ok(v) => v@ == rs,
                Result::Err(_) => false,
            }),
            Result::Err(e) => r == Err::<Vec<Record>, IndexError>(e),
        }),
{
    let edges = s.get_edges(params.sphere_hash, EdgeTag::SphereToOrbit);
    let n = edges.len();
    let mut out: Vec<Record> = Vec::new();
    let mut k: usize = 0;
    while k < n
        invariant
            s.wf(),
            n == edges@.len(),
            k <= n,
            edges@ == edges_matching(s.edges@, params.sphere_hash, EdgeTag::SphereToOrbit),
            resolve_targets(*s, edges@.take(k as int)) == Ok::<Seq<Record>, IndexError>(out@),
        decreases n - k,
    {
        let target = edges[k].to;
        proof {
            assert(edges@.take(k + 1).drop_last() =~= edges@.take(k as int));
            assert(edges@.take(k + 1).last() == edges@[k as int]);
        }
        match resolve_latest(s, target) {
            Ok(rec) => {
                out.push(rec);
            },
            Err(e) => {
                proof {
                    lemma_resolve_targets_err(*s, edges@, k as int);
                }
                return Err(e);
            },
        }
        k = k + 1;
    }
    proof {
        assert(edges@.take(n as int) =~= edges@);
    }
    Ok(out)
}

/// Once one target fails to resolve, the whole listing fails with the first
/// such failure.
proof fn lemma_resolve_targets_err(s: Store, edges: Seq<Edge>, k: int)
    requires
        0 <= k < edges.len(),
        resolve_targets(s, edges.take(k)) is Ok,
        resolve_spec(s, edges[k].to) is Err,
    ensures
        resolve_targets(s, edges) == Result::<Seq<Record>, IndexError>::Err(
            (match resolve_spec(s, edges[k].to) {
                Result::Ok(_) => arbitrary(),
                Result::Err(e) => e,
            }),
        ),
    decreases edges.len(),
{
    if edges.len() - 1 > k {
        assert(edges.drop_last().take(k) =~= edges.take(k));
        assert(edges.drop_last()[k] == edges[k]);
        lemma_resolve_targets_err(s, edges.drop_last(), k);
    } else {
        assert(edges.take(k) =~= edges.drop_last());
    }
}

/// Enumerate every entity record ever persisted, in creation order.
pub open spec fn records_of(items: Seq<Stored>) -> Seq<Record>
    decreases items.len(),
{
    if items.len() == 0 {
        Seq::empty()
    } else {
        let rest = records_of(items.drop_last());
        if items.last() is Rec {
            rest.push(rec_of(items.last()))
        } else {
            rest
        }
    }
}

/// Bulk enumeration of this writer's own chain of entity records, oldest
/// first.
pub fn _get_all_my_historic_orbit_records(s: &Store) -> (r: Vec<Record>)
    ensures
        r@ == records_of(s.items@),
{
    let n = s.items.len();
    let mut out: Vec<Record> = Vec::new();
    let mut k: usize = 0;
    while k < n
        invariant
            n == s.items@.len(),
            k <= n,
            out@ == records_of(s.items@.take(k as int)),
        decreases n - k,
    {
        match &s.items[k] {
            Stored::Rec(rec) => {
                out.push(rec.clone());
            },
            _ => {},
        }
        proof {
            assert(s.items@.take(k + 1).drop_last() =~= s.items@.take(k as int));
            assert(s.items@.take(k + 1).last() == s.items@[k as int]);
        }
        k = k + 1;
    }
    proof {
        assert(s.items@.take(n as int) =~= s.items@);
    }
    out
}

/// Container relocation: when the old container held exactly one edge for
/// the superseded record, an update to a new container removes the entity
/// from the old container's listing and adds the updated record to the new
/// container's listing.
pub proof fn lemma_container_relocation(
    olde: Seq<Edge>,
    newe: Seq<Edge>,
    old_sphere: Id,
    previous: Id,
    new_sphere: Id,
    new_id: Id,
)
    requires
        relocated_edges(olde, newe, old_sphere, previous, new_sphere, new_id),
        find_first(olde, edge_triple_pred(old_sphere, previous, EdgeTag::SphereToOrbit)) is Some,
        forall|i: int, j: int|
            0 <= i < j < olde.len() && edge_triple_pred(old_sphere, previous, EdgeTag::SphereToOrbit)(
                olde[i],
            ) && edge_triple_pred(old_sphere, previous, EdgeTag::SphereToOrbit)(olde[j]) ==> false,
        old_sphere != new_sphere,
    ensures
        forall|k: int|
            0 <= k < edges_matching(newe, old_sphere, EdgeTag::SphereToOrbit).len()
                ==> #[trigger] edges_matching(newe, old_sphere, EdgeTag::SphereToOrbit)[k].to
                != previous,
        exists|k: int|
            0 <= k < edges_matching(newe, new_sphere, EdgeTag::SphereToOrbit).len()
                && #[trigger] edges_matching(newe, new_sphere, EdgeTag::SphereToOrbit)[k].to
                == new_id,
{
    let pred = edge_triple_pred(old_sphere, previous, EdgeTag::SphereToOrbit);
    lemma_find_first(olde, pred);
    let di = (match find_first(olde, pred) {
        Option::Some(i) => i,
        Option::None => arbitrary(),
    });
    let base = olde.remove(di);
    olde.remove_ensures(di);
    assert(newe.subrange(0, base.len() as int) == base);
    lemma_edges_matching(newe, old_sphere, EdgeTag::SphereToOrbit);
    lemma_edges_matching(newe, new_sphere, EdgeTag::SphereToOrbit);
    assert forall|k: int|
        0 <= k < edges_matching(newe, old_sphere, EdgeTag::SphereToOrbit).len()
            implies #[trigger] edges_matching(newe, old_sphere, EdgeTag::SphereToOrbit)[k].to
        != previous by {
        let e = edges_matching(newe, old_sphere, EdgeTag::SphereToOrbit)[k];
        assert(newe.contains(e));
        let m = choose|m: int| 0 <= m < newe.len() && newe[m] == e;
        if m < base.len() {
            assert(newe[m] == base[m]);
            let m2: int = if m < di {
                m
            } else {
                m + 1
            };
            assert(base[m] == olde[m2]);
            if e.to == previous {
                assert(pred(olde[m2]));
                assert(pred(olde[di]));
                assert(m2 != di);
                if m2 < di {
                    assert(false);
                } else {
                    assert(false);
                }
            }
        } else {
            assert(m == base.len() || m == base.len() + 1);
            assert(e.from == new_sphere || e.tag == EdgeTag::OrbitsPrefixPath);
        }
    }
    let sph = newe[base.len() as int];
    assert(sph.from == new_sphere && sph.tag == EdgeTag::SphereToOrbit);
    assert(edges_matching(newe, new_sphere, EdgeTag::SphereToOrbit).contains(sph));
    let k = choose|k: int|
        0 <= k < edges_matching(newe, new_sphere, EdgeTag::SphereToOrbit).len()
            && edges_matching(newe, new_sphere, EdgeTag::SphereToOrbit)[k] == sph;
    assert(edges_matching(newe, new_sphere, EdgeTag::SphereToOrbit)[k].to == new_id);
}

} // verus!
