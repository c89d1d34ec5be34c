//! The point-in-polygon primitive, provided by the geo crate on the
//! library's fixed-point coordinates: geo's integer kernel computes the
//! winding number exactly, with no floating point involved.

use crate::coords::Coord;
use vstd::prelude::*;

verus! {

/// The lat/lon pairs of a coordinate ring.
pub open spec fn coords_view(ring: Seq<Coord>) -> Seq<(i64, i64)> {
    ring.map_values(|c: Coord| (c.lat, c.lon))
}

/// Whether the point lies strictly inside the polygon whose exterior is
/// `ring` — what geo's `Contains` answers on these coordinates. Boundary
/// points are outside. A pure function of the coordinates.
pub uninterp spec fn contains_point(ring: Seq<(i64, i64)>, lat: i64, lon: i64) -> bool;

/// The greatest coordinate magnitude the containment test accepts: it
/// keeps geo's cross products far inside `i128`.
pub const GEOM_COORD_LIMIT: i64 = 4398046511104;

/// Relies on geo's `Contains` for `Polygon<i128>`: strictly-inside
/// containment of the point in the polygon whose exterior ring is given,
/// computed exactly on the fixed-point coordinates by geo's integer
/// kernel. Deterministic in the coordinates alone.
#[verifier::external_body]
pub(crate) fn ring_contains(ring: &Vec<Coord>, lat: i64, lon: i64) -> (r: bool)
    requires
        forall|i: int|
            0 <= i < ring@.len() ==> -GEOM_COORD_LIMIT <= #[trigger] ring@[i].lat
                <= GEOM_COORD_LIMIT && -GEOM_COORD_LIMIT <= ring@[i].lon <= GEOM_COORD_LIMIT,
        -GEOM_COORD_LIMIT <= lat <= GEOM_COORD_LIMIT,
        -GEOM_COORD_LIMIT <= lon <= GEOM_COORD_LIMIT,
    ensures
        r == contains_point(coords_view(ring@), lat, lon),
{
    let exterior: geo::LineString<i128> = ring.iter().map(
        |c| geo::Coord { x: c.lon as i128, y: c.lat as i128 },
    ).collect();
    let polygon = geo::Polygon::new(exterior, Vec::new());
    geo::Contains::contains(&polygon, &geo::Point::new(lon as i128, lat as i128))
}

} // verus!
