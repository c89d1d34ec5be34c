//! In-memory OpenStreetMap planet model: a build-then-read store of nodes,
//! ways and relations, a ring assembler that stitches a relation's outer way
//! fragments into closed polygon boundaries, a polygon index answering
//! point-containment queries, and an address resolver that annotates every
//! named point feature with its ordered chain of administrative ancestors.
//!
//! Coordinates are kept in OSM's fixed-point decimicro-degree encoding
//! (1e-7 degrees per unit) throughout, so latitude and longitude round-trip
//! exactly and the documented 7-decimal-place rounding is exact integer
//! arithmetic here.

pub mod assoc;
pub mod coords;
pub mod geom;
pub mod ids;
pub mod index;
pub mod planet;
pub mod resolver;
pub mod rings;
pub mod tags;

pub use coords::{round_div_away, Coord};
pub use ids::{OsmId, ParseOsmIdError};
pub use index::{PolygonIndex, RelationPolygons};
pub use planet::{Member, ModelError, Node, OsmObj, Planet, Relation, Way};
pub use resolver::{
    location_chain, named_features, relation_record, resolve_all, resolve_feature, Record,
    BUILDING_LEVEL,
};
pub use rings::assemble_rings;
pub use tags::{Meta, Tags};
