use vstd::prelude::*;

verus! {

/// A store-assigned identifier.
///
/// The store hands identifiers out in creation order, so an identifier also
/// serves as the creation stamp of what it names: a later identifier was
/// created later.
pub type Id = usize;

/// Entity content: the fields of an "orbit" that the index reads.
///
/// `parent_hash` names the content identifier of the logical parent entity,
/// if any; `sphere_hash` names the container the entity belongs to.  Each
/// create or update persists a new immutable record of this content.
#[derive(Debug)]
pub struct Orbit {
    pub name: String,
    pub parent_hash: Option<Id>,
    pub sphere_hash: Id,
}

/// Content equality: the store's content addressing identifies two orbits
/// exactly when these fields agree.
pub open spec fn same_content(a: Orbit, b: Orbit) -> bool {
    a.name@ == b.name@ && a.parent_hash == b.parent_hash && a.sphere_hash == b.sphere_hash
}

impl Orbit {
    /// Decides content equality.
    pub fn content_eq(&self, other: &Orbit) -> (r: bool)
        ensures
            r == same_content(*self, *other),
    {
        let parents_match = match (self.parent_hash, other.parent_hash) {
            (Option::None, Option::None) => true,
            (Option::Some(a), Option::Some(b)) => a == b,
            _ => false,
        };
        self.name == other.name && parents_match && self.sphere_hash == other.sphere_hash
    }
}

impl Clone for Orbit {
    fn clone(&self) -> (r: Self)
        ensures
            r == *self,
    {
        Orbit { name: self.name.clone(), parent_hash: self.parent_hash, sphere_hash: self.sphere_hash }
    }
}

/// One immutable, content-addressed snapshot of an entity, together with the
/// store-assigned metadata around it.
///
/// `id` is the record's own identifier and creation stamp; `entry_hash` is
/// the content identifier of `orbit`; `supersedes` points back at the record
/// this one updates; `successor` is the store-native supersession pointer,
/// present only once the record has been updated.
#[derive(Debug)]
pub struct Record {
    pub id: Id,
    pub entry_hash: Id,
    pub supersedes: Option<Id>,
    pub successor: Option<Id>,
    pub orbit: Orbit,
}

impl Clone for Record {
    fn clone(&self) -> (r: Self)
        ensures
            r == *self,
    {
        Record {
            id: self.id,
            entry_hash: self.entry_hash,
            supersedes: self.supersedes,
            successor: self.successor,
            orbit: self.orbit.clone(),
        }
    }
}

/// Request shape of an update: which chain is updated, which record the new
/// content supersedes, and the new content itself.
pub struct UpdateOrbitInput {
    pub original_orbit_hash: Id,
    pub previous_orbit_hash: Id,
    pub updated_orbit: Orbit,
}

/// Request shape of a container listing.
pub struct SphereOrbitsQueryParams {
    pub sphere_hash: Id,
}

/// Request shape of a hierarchy query: the content identifier of the root.
pub struct OrbitHierarchyInput {
    pub orbit_entry_hash: Id,
}

} // verus!
