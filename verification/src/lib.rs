//! A versioned, hierarchical entity index over an append-only record store.
//!
//! Entities ("orbits") are immutable, content-addressed records chained by
//! supersession pointers; secondary, deletable edges index them by name
//! prefix, by container ("sphere"), and by parent.  The library resolves the
//! current version of a logically mutable entity, keeps the secondary
//! indexes consistent across updates, and rebuilds and serializes the
//! parent/child hierarchy from a flat record set, safely even when the edge
//! data is cyclic.

pub mod error;
pub mod orbit;
pub mod store;
pub mod resolve;
pub mod index;
pub mod hierarchy;

pub use error::IndexError;
pub use orbit::{Id, Orbit, Record, UpdateOrbitInput, SphereOrbitsQueryParams, OrbitHierarchyInput};
pub use store::{Store, Stored, Edge, EdgeTag};
pub use resolve::{resolve_latest, get_my_orbit, get_orbit};
pub use index::{create_orbit, create_my_orbit, update_orbit, delete_orbit, derive_prefix, get_all_my_sphere_orbits, _get_all_my_historic_orbit_records};
pub use hierarchy::{collect_descendants, build_tree, get_orbit_hierarchy_json, Forest, TreeNode};
