//! The polygon index: every relation tagged `boundary=administrative`,
//! realized into coordinate rings by the ring assembler, ready for
//! point-containment queries. Relations whose rings cannot be assembled
//! are skipped — absent from resolution, not fatal; a ring with an
//! unresolvable node id is likewise skipped on its own.

use crate::assoc::{assoc_get, lemma_assoc_get_index};
use crate::coords::{coord_in_range, point_in_range, Coord};
use crate::geom::{contains_point, coords_view, ring_contains, GEOM_COORD_LIMIT};
use crate::planet::{spec_collect_fragments, ModelError, Planet, Relation};
use crate::rings::even_endpoint_counts;
use vstd::prelude::*;

verus! {

/// A coordinate ring that ends where it starts.
pub open spec fn closed_coord_ring(r: Seq<Coord>) -> bool {
    r.len() >= 2 && r.first() == r.last()
}

/// One indexed relation: its id and its realized outer rings.
pub struct RelationPolygons {
    pub rel_id: i64,
    pub rings: Vec<Vec<Coord>>,
}

impl RelationPolygons {
    /// Every stored coordinate came from 32-bit node storage.
    pub open spec fn wf(self) -> bool {
        forall|i: int, j: int|
            0 <= i < self.rings@.len() && 0 <= j < self.rings@[i]@.len() ==> coord_in_range(
                #[trigger] self.rings@[i]@[j],
            )
    }
}

/// Whether a relation is tagged as an administrative boundary.
pub open spec fn spec_is_administrative(rel: Relation) -> bool {
    rel.tags@.contains_key("boundary"@) && rel.tags@["boundary"@] == "administrative"@
}

/// What the index promises of each of its entries: it stands for an
/// administrative relation of the planet, its coordinates are in range,
/// and each realized ring is closed.
pub open spec fn spec_entry_ok(p: Planet, e: RelationPolygons) -> bool {
    &&& match assoc_get(p.relations@, e.rel_id) {
        Some(rel) => spec_is_administrative(rel),
        None => false,
    }
    &&& e.wf()
    &&& forall|i: int| 0 <= i < e.rings@.len() ==> closed_coord_ring(#[trigger] e.rings@[i]@)
}

/// The first fatal role violation among the administrative relations, in
/// store order — the error the index build surfaces.
pub open spec fn spec_first_index_error(p: Planet, rels: Seq<(i64, Relation)>) -> Option<
    ModelError,
>
    decreases rels.len(),
{
    if rels.len() == 0 {
        None
    } else {
        let rel = rels.first().1;
        if spec_is_administrative(rel) && spec_collect_fragments(p, rel.members@) is Err {
            Some(spec_collect_fragments(p, rel.members@)->Err_0)
        } else {
            spec_first_index_error(p, rels.drop_first())
        }
    }
}

/// The relation ids recorded for one entry: the id once per ring that
/// contains the point, in ring order.
pub open spec fn spec_rings_hits(rel_id: i64, rings: Seq<Vec<Coord>>, p: Coord) -> Seq<i64>
    decreases rings.len(),
{
    if rings.len() == 0 {
        Seq::empty()
    } else {
        spec_rings_hits(rel_id, rings.drop_last(), p) + (if contains_point(
            coords_view(rings.last()@),
            p.lat,
            p.lon,
        ) {
            seq![rel_id]
        } else {
            Seq::empty()
        })
    }
}

/// The containment scan's answer: for each entry in index order, its
/// relation id once per containing ring.
pub open spec fn spec_containing(entries: Seq<RelationPolygons>, p: Coord) -> Seq<i64>
    decreases entries.len(),
{
    if entries.len() == 0 {
        Seq::empty()
    } else {
        spec_containing(entries.drop_last(), p) + spec_rings_hits(
            entries.last().rel_id,
            entries.last().rings@,
            p,
        )
    }
}

/// Resolves every node id of a ring; `None` as soon as one is missing.
fn realize_ring(planet: &Planet, ring: &Vec<i64>) -> (r: Option<Vec<Coord>>)
    requires
        planet.wf(),
    ensures
        match r {
            Some(v) => v@.len() == ring@.len() && (forall|k: int|
                0 <= k < ring@.len() ==> planet.spec_node_coords(ring@[k]) == Some(
                    #[trigger] v@[k],
                )) && (forall|k: int| 0 <= k < v@.len() ==> coord_in_range(#[trigger] v@[k])),
            None => exists|k: int|
                0 <= k < ring@.len() && planet.spec_node_coords(#[trigger] ring@[k]) is None,
        },
{
    let n = ring.len();
    let mut out: Vec<Coord> = Vec::new();
    let mut i: usize = 0;
    while i < n
        invariant
            planet.wf(),
            0 <= i <= n,
            n == ring@.len(),
            out@.len() == i,
            forall|k: int|
                0 <= k < i ==> planet.spec_node_coords(ring@[k]) == Some(#[trigger] out@[k]),
            forall|k: int| 0 <= k < out@.len() ==> coord_in_range(#[trigger] out@[k]),
        decreases n - i,
    {
        match planet.node_coords(ring[i]) {
            Some(c) => {
                out.push(c);
            },
            None => {
                return None;
            },
        }
        i += 1;
    }
    Some(out)
}

/// Whether the index holds an entry for this relation: it is tagged
/// administrative and its outer fragments assemble — there is at least
/// one, none is shorter than two ids, and every endpoint count is even.
pub open spec fn spec_indexed(p: Planet, rel: Relation) -> bool {
    &&& spec_is_administrative(rel)
    &&& spec_collect_fragments(p, rel.members@) is Ok
    &&& {
        let frags = spec_collect_fragments(p, rel.members@)->Ok_0;
        &&& frags.len() > 0
        &&& !(exists|i: int| 0 <= i < frags.len() && #[trigger] frags[i].len() < 2)
        &&& even_endpoint_counts(frags)
    }
}

/// The relation ids the index holds, in store order.
pub open spec fn spec_index_ids(p: Planet, rels: Seq<(i64, Relation)>) -> Seq<i64>
    decreases rels.len(),
{
    if rels.len() == 0 {
        Seq::empty()
    } else {
        spec_index_ids(p, rels.drop_last()) + (if spec_indexed(p, rels.last().1) {
            seq![rels.last().0]
        } else {
            Seq::empty()
        })
    }
}

/// The relation ids of an entry list, in order.
pub open spec fn entry_ids(entries: Seq<RelationPolygons>) -> Seq<i64> {
    entries.map_values(|e: RelationPolygons| e.rel_id)
}

/// The polygon index itself.
pub struct PolygonIndex {
    pub entries: Vec<RelationPolygons>,
}

impl PolygonIndex {
    /// Every entry stands for an administrative relation, with in-range
    /// coordinates and closed rings.
    pub open spec fn wf(self, p: Planet) -> bool {
        forall|k: int| 0 <= k < self.entries@.len() ==> spec_entry_ok(p, #[trigger] self.entries@[k])
    }

    /// Materializes every administrative relation's rings, skipping
    /// relations whose rings cannot be assembled and rings with missing
    /// nodes; the first fatal role violation aborts the build instead.
    /// Which relations are indexed, and in what order, is pinned by
    /// [`spec_index_ids`].
    pub fn build(planet: &Planet) -> (r: Result<PolygonIndex, ModelError>)
        requires
            planet.wf(),
        ensures
            match spec_first_index_error(*planet, planet.relations@) {
                Some(e) => r == Err::<PolygonIndex, ModelError>(e),
                None => r is Ok && r->Ok_0.wf(*planet) && entry_ids(r->Ok_0.entries@)
                    == spec_index_ids(*planet, planet.relations@),
            },
    {
        let n = planet.relations.len();
        let mut entries: Vec<RelationPolygons> = Vec::new();
        let mut i: usize = 0;
        proof {
            assert(planet.relations@.subrange(0, n as int) =~= planet.relations@);
            assert(entry_ids(entries@) =~= spec_index_ids(
                *planet,
                planet.relations@.subrange(0, 0),
            ));
        }
        while i < n
            invariant
                planet.wf(),
                0 <= i <= n,
                n == planet.relations@.len(),
                spec_first_index_error(*planet, planet.relations@) == spec_first_index_error(
                    *planet,
                    planet.relations@.subrange(i as int, n as int),
                ),
                forall|k: int|
                    0 <= k < entries@.len() ==> spec_entry_ok(*planet, #[trigger] entries@[k]),
                entry_ids(entries@) == spec_index_ids(
                    *planet,
                    planet.relations@.subrange(0, i as int),
                ),
            decreases n - i,
        {
            let ghost suffix = planet.relations@.subrange(i as int, n as int);
            let ghost prefix = planet.relations@.subrange(0, i as int);
            let ghost extended = planet.relations@.subrange(0, i as int + 1);
            proof {
                assert(suffix.first() == planet.relations@[i as int]);
                assert(suffix.drop_first() =~= planet.relations@.subrange(
                    i as int + 1,
                    n as int,
                ));
                assert(extended.drop_last() =~= prefix);
                assert(extended.last() == planet.relations@[i as int]);
            }
            let rel_id = planet.relations[i].0;
            let rel = &planet.relations[i].1;
            proof {
                lemma_assoc_get_index(planet.relations@, i as int);
            }
            if rel.tags.contains_kv("boundary", "administrative") {
                match planet.relation_rings(rel_id) {
                    Err(e) => {
                        return Err(e);
                    },
                    Ok(None) => {
                        proof {
                            assert(!spec_indexed(*planet, planet.relations@[i as int].1));
                            assert(entry_ids(entries@) =~= spec_index_ids(*planet, extended));
                        }
                    },
                    Ok(Some(rings)) => {
                        let m = rings.len();
                        let mut realized: Vec<Vec<Coord>> = Vec::new();
                        let mut j: usize = 0;
                        while j < m
                            invariant
                                planet.wf(),
                                0 <= j <= m,
                                m == rings@.len(),
                                forall|k: int|
                                    0 <= k < rings@.len() ==> #[trigger] rings@[k]@.len() >= 2
                                        && rings@[k]@.first() == rings@[k]@.last(),
                                forall|a: int, b: int|
                                    0 <= a < realized@.len() && 0 <= b < realized@[a]@.len()
                                        ==> coord_in_range(#[trigger] realized@[a]@[b]),
                                forall|a: int|
                                    0 <= a < realized@.len() ==> closed_coord_ring(
                                        #[trigger] realized@[a]@,
                                    ),
                            decreases m - j,
                        {
                            match realize_ring(planet, &rings[j]) {
                                Some(v) => {
                                    proof {
                                        let ids = rings@[j as int]@;
                                        assert(planet.spec_node_coords(ids[0]) == Some(v@[0]));
                                        assert(planet.spec_node_coords(ids[ids.len() - 1]) == Some(
                                            v@[v@.len() - 1],
                                        ));
                                        assert(ids[0] == ids[ids.len() - 1]);
                                        assert(closed_coord_ring(v@));
                                    }
                                    realized.push(v);
                                },
                                None => {},
                            }
                            j += 1;
                        }
                        let entry = RelationPolygons { rel_id, rings: realized };
                        let ghost ids_prev = entry_ids(entries@);
                        proof {
                            assert(spec_entry_ok(*planet, entry));
                            assert(spec_indexed(*planet, planet.relations@[i as int].1));
                        }
                        entries.push(entry);
                        proof {
                            assert(entry_ids(entries@).len() == ids_prev.len() + 1);
                            assert(entry_ids(entries@).last() == rel_id);
                            assert forall|k: int| 0 <= k < ids_prev.len() implies entry_ids(
                                entries@,
                            )[k] == ids_prev[k] by {
                                assert(entries@[k] == entries@.drop_last()[k]);
                            }
                            assert(entry_ids(entries@) =~= ids_prev + seq![rel_id]);
                            assert(entry_ids(entries@) =~= spec_index_ids(*planet, extended));
                        }
                    },
                }
            } else {
                proof {
                    assert(!spec_indexed(*planet, planet.relations@[i as int].1));
                    assert(entry_ids(entries@) =~= spec_index_ids(*planet, extended));
                }
            }
            i += 1;
        }
        proof {
            assert(planet.relations@.subrange(n as int, n as int) =~= Seq::<(i64, Relation)>::empty(
            ));
        }
        Ok(PolygonIndex { entries })
    }

    /// The relation ids of all indexed polygons containing the point, one
    /// per containing ring, in index order: a linear containment scan.
    pub fn containing(&self, planet: &Planet, p: Coord) -> (r: Vec<i64>)
        requires
            self.wf(*planet),
            point_in_range(p),
        ensures
            r@ == spec_containing(self.entries@, p),
    {
        let n = self.entries.len();
        let mut out: Vec<i64> = Vec::new();
        let mut i: usize = 0;
        proof {
            assert(out@ =~= spec_containing(self.entries@.subrange(0, 0), p));
        }
        while i < n
            invariant
                self.wf(*planet),
                point_in_range(p),
                0 <= i <= n,
                n == self.entries@.len(),
                out@ == spec_containing(self.entries@.subrange(0, i as int), p),
            decreases n - i,
        {
            let entry = &self.entries[i];
            let m = entry.rings.len();
            let mut j: usize = 0;
            proof {
                assert(spec_rings_hits(entry.rel_id, entry.rings@.subrange(0, 0), p)
                    =~= Seq::<i64>::empty());
                assert(out@ =~= spec_containing(self.entries@.subrange(0, i as int), p)
                    + spec_rings_hits(entry.rel_id, entry.rings@.subrange(0, 0), p));
            }
            while j < m
                invariant
                    self.wf(*planet),
                    point_in_range(p),
                    0 <= i < n,
                    n == self.entries@.len(),
                    entry == self.entries@[i as int],
                    0 <= j <= m,
                    m == entry.rings@.len(),
                    out@ == spec_containing(self.entries@.subrange(0, i as int), p)
                        + spec_rings_hits(entry.rel_id, entry.rings@.subrange(0, j as int), p),
                decreases m - j,
            {
                let ghost hits_before = spec_rings_hits(
                    entry.rel_id,
                    entry.rings@.subrange(0, j as int),
                    p,
                );
                proof {
                    assert(spec_entry_ok(*planet, self.entries@[i as int]));
                    assert forall|k: int|
                        0 <= k < entry.rings@[j as int]@.len() implies -GEOM_COORD_LIMIT
                        <= #[trigger] entry.rings@[j as int]@[k].lat <= GEOM_COORD_LIMIT
                        && -GEOM_COORD_LIMIT <= entry.rings@[j as int]@[k].lon
                        <= GEOM_COORD_LIMIT by {
                        assert(coord_in_range(entry.rings@[j as int]@[k]));
                    }
                    assert(entry.rings@.subrange(0, j as int + 1).drop_last() =~= entry
                        .rings@.subrange(0, j as int));
                    assert(entry.rings@.subrange(0, j as int + 1).last() == entry.rings@[j as int]);
                }
                if ring_contains(&entry.rings[j], p.lat, p.lon) {
                    out.push(entry.rel_id);
                    proof {
                        assert(out@ =~= spec_containing(self.entries@.subrange(0, i as int), p)
                            + spec_rings_hits(
                            entry.rel_id,
                            entry.rings@.subrange(0, j as int + 1),
                            p,
                        ));
                    }
                } else {
                    proof {
                        assert(out@ =~= spec_containing(self.entries@.subrange(0, i as int), p)
                            + spec_rings_hits(
                            entry.rel_id,
                            entry.rings@.subrange(0, j as int + 1),
                            p,
                        ));
                    }
                }
                j += 1;
            }
            proof {
                assert(entry.rings@.subrange(0, m as int) =~= entry.rings@);
                assert(self.entries@.subrange(0, i as int + 1).drop_last() =~= self
                    .entries@.subrange(0, i as int));
                assert(self.entries@.subrange(0, i as int + 1).last() == self.entries@[i as int]);
                assert(out@ =~= spec_containing(self.entries@.subrange(0, i as int + 1), p));
            }
            i += 1;
        }
        proof {
            assert(self.entries@.subrange(0, n as int) =~= self.entries@);
        }
        out
    }
}

} // verus!
