use vstd::prelude::*;

use crate::error::IndexError;
use crate::orbit::{Id, Record};
use crate::store::{Store, Stored, item_ok, rec_of};

verus! {

/// The identifier at the end of the store-native supersession walk that
/// starts at `id`: follow each record's single successor until a record
/// with none.  Well-founded because the store hands identifiers out in
/// creation order, so a successor always has a larger identifier.
pub open spec fn latest_from(items: Seq<Stored>, id: int) -> int
    decreases items.len() - id,
{
    if 0 <= id < items.len() && items[id] is Rec {
        match rec_of(items[id]).successor {
            Option::Some(sx) => if id < sx && (sx as int) < items.len() {
                latest_from(items, sx as int)
            } else {
                id
            },
            Option::None => id,
        }
    } else {
        id
    }
}

/// What resolving `id` returns: `NotFound` for an identifier the store
/// never assigned, `MalformedChain` for one that holds no record, and
/// otherwise the record at the end of the supersession walk.
pub open spec fn resolve_spec(s: Store, id: Id) -> Result<Record, IndexError> {
    if !(id < s.items@.len()) {
        Err(IndexError::NotFound)
    } else if !(s.items@[id as int] is Rec) {
        Err(IndexError::MalformedChain)
    } else {
        Ok(s.rec_at(latest_from(s.items@, id as int)))
    }
}

/// Version Resolver: find the record representing the current state of the
/// entity whose chain starts at `original_id`, by walking the store-native
/// supersession pointers until a record with no successor.
pub fn resolve_latest(s: &Store, original_id: Id) -> (r: Result<Record, IndexError>)
    requires
        s.wf(),
    ensures
        r == resolve_spec(*s, original_id),
        (match r {
            Result::Ok(rec) => rec.successor is None && s.is_rec(rec.id as int)
                && rec == s.rec_at(rec.id as int),
            Result::Err(_) => true,
        }),
{
    if original_id >= s.items.len() {
        return Err(IndexError::NotFound);
    }
    match &s.items[original_id] {
        Stored::Rec(_) => {},
        _ => {
            return Err(IndexError::MalformedChain);
        },
    }
    let mut cur = original_id;
    loop
        invariant
            s.wf(),
            cur < s.items@.len(),
            s.items@[cur as int] is Rec,
            original_id < s.items@.len(),
            s.items@[original_id as int] is Rec,
            latest_from(s.items@, original_id as int) == latest_from(s.items@, cur as int),
        decreases s.items@.len() - cur,
    {
        let rec = match &s.items[cur] {
            Stored::Rec(rec) => rec,
            _ => {
                return Err(IndexError::MalformedChain);
            },
        };
        match rec.successor {
            Some(sx) => {
                proof {
                    assert(item_ok(s.items@, cur as int));
                    assert(latest_from(s.items@, cur as int) == latest_from(s.items@, sx as int));
                }
                cur = sx;
            },
            None => {
                proof {
                    assert(item_ok(s.items@, cur as int));
                    assert(latest_from(s.items@, cur as int) == cur);
                }
                return Ok(rec.clone());
            },
        }
    }
}

/// Resolve the current version of one of this agent's entities; the
/// canonical resolution policy, under the caller-facing name.
pub fn get_my_orbit(s: &Store, original_orbit_hash: Id) -> (r: Result<Record, IndexError>)
    requires
        s.wf(),
    ensures
        r == resolve_spec(*s, original_orbit_hash),
{
    resolve_latest(s, original_orbit_hash)
}

/// Resolve the current version of an entity.  The one canonical resolution
/// policy is the store-native supersession walk, so this coincides with
/// `get_my_orbit`.
pub fn get_orbit(s: &Store, original_orbit_hash: Id) -> (r: Result<Record, IndexError>)
    requires
        s.wf(),
    ensures
        r == resolve_spec(*s, original_orbit_hash),
{
    resolve_latest(s, original_orbit_hash)
}

/// A record with no successor resolves to itself: an entity created and at
/// once resolved yields its own record.
pub proof fn lemma_fresh_record_resolves(s: Store, id: Id)
    requires
        s.wf(),
        s.is_rec(id as int),
        s.rec_at(id as int).successor is None,
    ensures
        resolve_spec(s, id) == Ok::<Record, IndexError>(s.rec_at(id as int)),
{
    assert(latest_from(s.items@, id as int) == id);
}

/// `ids` lists a whole update chain held in the store: each record's single
/// successor is the next entry, and the last entry has none.
pub open spec fn is_chain(s: Store, ids: Seq<Id>) -> bool {
    &&& ids.len() >= 1
    &&& forall|k: int| 0 <= k < ids.len() ==> s.is_rec(#[trigger] ids[k] as int)
    &&& forall|k: int|
        0 <= k < ids.len() - 1 ==> s.rec_at(#[trigger] ids[k] as int).successor == Option::Some(
            ids[k + 1],
        )
    &&& s.rec_at(ids.last() as int).successor is None
}

/// Resolving the head of an update chain returns the record produced by the
/// last update, whatever the chain's length.
pub proof fn lemma_resolve_chain(s: Store, ids: Seq<Id>)
    requires
        s.wf(),
        is_chain(s, ids),
    ensures
        resolve_spec(s, ids[0]) == Ok::<Record, IndexError>(s.rec_at(ids.last() as int)),
    decreases ids.len(),
{
    if ids.len() == 1 {
        lemma_fresh_record_resolves(s, ids[0]);
    } else {
        let rest = ids.drop_first();
        assert(forall|k: int| 0 <= k < rest.len() ==> rest[k] == ids[k + 1]);
        assert(rest.last() == ids.last());
        assert(is_chain(s, rest));
        lemma_resolve_chain(s, rest);
        assert(item_ok(s.items@, ids[0] as int));
        assert(latest_from(s.items@, ids[0] as int) == latest_from(s.items@, ids[1] as int));
    }
}

} // verus!
