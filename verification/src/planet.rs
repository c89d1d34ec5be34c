//! The planet store: an in-memory model of an OSM extract, built once from
//! a decoded object stream and read-only afterwards. Nodes, ways and
//! relations live in three id-keyed maps; inserting an id twice keeps only
//! the most recent object. Missing references are never errors — every
//! lookup simply reports "no value" for them.

use crate::assoc::{
    assoc_get, assoc_get_ref, assoc_insert, assoc_unique, lemma_assoc_insert_entries,
    spec_assoc_insert,
};
use crate::coords::{
    coord_in_range, lemma_round_div_bound, point_in_range, round_div_away_wide,
    spec_round_div_away, Coord,
};
use crate::ids::OsmId;
use crate::rings::{
    assemble_rings, edges_of_all, even_endpoint_counts, is_closed_ring, views_of,
};
use crate::tags::{Meta, Tags};
use vstd::prelude::*;

verus! {

/// A data-shape violation in the planet model: fatal to the whole run,
/// unlike missing references, which every lookup merely reports as absent.
#[derive(Clone, Copy, Debug, PartialEq, Eq, Structural)]
pub enum ModelError {
    /// A relation member carries a role outside the recognized set
    /// `outer`, `inner`, `subarea`, `admin_centre`, `""`.
    UnknownRole,
    /// A recognized role sits on a member of the wrong kind, such as
    /// `subarea` on a way or `outer` on a relation.
    WrongKindRole,
    /// An `admin_level` tag that is not a small decimal number.
    InvalidAdminLevel,
    /// An administrative record whose level reaches the reserved
    /// building sentinel.
    AdminLevelViolation,
}

/// A point: its coordinate in decimicro degrees and its display metadata.
pub struct Node {
    pub meta: Meta,
    pub decimicro_lat: i32,
    pub decimicro_lon: i32,
}

/// A polyline: the ordered ids of its nodes, order significant.
pub struct Way {
    pub meta: Meta,
    pub nodes: Vec<i64>,
}

/// One relation member: a target object and the role it plays there.
pub struct Member {
    pub id: OsmId,
    pub role: String,
}

/// A named grouping of members, carrying a tag map.
pub struct Relation {
    pub tags: Tags,
    pub members: Vec<Member>,
}

impl Relation {
    pub open spec fn wf(self) -> bool {
        self.tags.wf()
    }
}

/// A decoded object about to enter the store, keyed by its own id space.
pub enum OsmObj {
    Node(i64, Node),
    Way(i64, Way),
    Relation(i64, Relation),
}

impl OsmObj {
    pub open spec fn wf(self) -> bool {
        match self {
            OsmObj::Relation(_, r) => r.wf(),
            _ => true,
        }
    }
}

/// The planet store itself: three id-keyed maps with unique keys.
pub struct Planet {
    pub nodes: Vec<(i64, Node)>,
    pub ways: Vec<(i64, Way)>,
    pub relations: Vec<(i64, Relation)>,
}

impl Planet {
    /// Well-formed: per-kind ids are unique and relation tag maps are.
    pub open spec fn wf(self) -> bool {
        &&& assoc_unique(self.nodes@)
        &&& assoc_unique(self.ways@)
        &&& assoc_unique(self.relations@)
        &&& forall|i: int| 0 <= i < self.relations@.len() ==> self.relations@[i].1.wf()
    }

    /// An empty planet.
    pub fn new() -> (r: Planet)
        ensures
            r.wf(),
            r.nodes@.len() == 0,
            r.ways@.len() == 0,
            r.relations@.len() == 0,
    {
        Planet { nodes: Vec::new(), ways: Vec::new(), relations: Vec::new() }
    }

    /// Classifies a decoded object by kind and stores it in the matching
    /// map, overwriting any earlier object with the same id.
    pub fn insert(&mut self, obj: OsmObj)
        requires
            old(self).wf(),
            obj.wf(),
        ensures
            final(self).wf(),
            match obj {
                OsmObj::Node(id, n) => final(self).nodes@ == spec_assoc_insert(
                    old(self).nodes@,
                    id,
                    n,
                ) && final(self).ways@ == old(self).ways@ && final(self).relations@ == old(
                    self,
                ).relations@,
                OsmObj::Way(id, w) => final(self).ways@ == spec_assoc_insert(old(self).ways@, id, w)
                    && final(self).nodes@ == old(self).nodes@ && final(self).relations@ == old(
                    self,
                ).relations@,
                OsmObj::Relation(id, r) => final(self).relations@ == spec_assoc_insert(
                    old(self).relations@,
                    id,
                    r,
                ) && final(self).nodes@ == old(self).nodes@ && final(self).ways@ == old(
                    self,
                ).ways@,
            },
    {
        match obj {
            OsmObj::Node(id, n) => {
                assoc_insert(&mut self.nodes, id, n);
            },
            OsmObj::Way(id, w) => {
                assoc_insert(&mut self.ways, id, w);
            },
            OsmObj::Relation(id, r) => {
                proof {
                    lemma_assoc_insert_entries(self.relations@, id, r);
                }
                assoc_insert(&mut self.relations, id, r);
                proof {
                    assert forall|i: int|
                        0 <= i < self.relations@.len() implies self.relations@[i].1.wf() by {
                        if self.relations@[i] != (id, r) {
                            let e = self.relations@[i];
                            assert(old(self).relations@.contains(e));
                        }
                    }
                }
            },
        }
    }

    /// The coordinate stored for a node id, if the node is present.
    pub open spec fn spec_node_coords(self, id: i64) -> Option<Coord> {
        match assoc_get(self.nodes@, id) {
            Some(n) => Some(
                Coord { lat: n.decimicro_lat as i64, lon: n.decimicro_lon as i64 },
            ),
            None => None,
        }
    }

    /// A node's own coordinate; `None` when the id is unknown.
    pub fn node_coords(&self, id: i64) -> (r: Option<Coord>)
        requires
            self.wf(),
        ensures
            r == self.spec_node_coords(id),
    {
        match assoc_get_ref(&self.nodes, id) {
            Some(n) => Some(Coord { lat: n.decimicro_lat as i64, lon: n.decimicro_lon as i64 }),
            None => None,
        }
    }

    /// The coordinates of a node-id list's resolvable nodes, in order;
    /// unknown ids contribute nothing.
    pub open spec fn spec_resolved_coords(self, nodes: Seq<i64>) -> Seq<Coord>
        decreases nodes.len(),
    {
        if nodes.len() == 0 {
            Seq::empty()
        } else {
            let rest = self.spec_resolved_coords(nodes.drop_last());
            match self.spec_node_coords(nodes.last()) {
                Some(c) => rest.push(c),
                None => rest,
            }
        }
    }

    /// A way's representative point: the mean of the coordinates of its
    /// resolvable nodes, rounded half away from zero; `None` when no node
    /// resolves.
    pub open spec fn spec_way_coords(self, way: Way) -> Option<Coord> {
        let pts = self.spec_resolved_coords(way.nodes@);
        if pts.len() == 0 {
            None
        } else {
            Some(
                Coord {
                    lat: spec_round_div_away(sum_lats(pts), pts.len() as int) as i64,
                    lon: spec_round_div_away(sum_lons(pts), pts.len() as int) as i64,
                },
            )
        }
    }

    /// The representative point of any id: a node's own coordinate, a
    /// way's node-mean, and nothing for a relation (its coordinate comes
    /// from the administrative-centre rule instead).
    pub open spec fn spec_obj_coords(self, id: OsmId) -> Option<Coord> {
        match id {
            OsmId::Node(n) => self.spec_node_coords(n),
            OsmId::Way(w) => match assoc_get(self.ways@, w) {
                Some(way) => self.spec_way_coords(way),
                None => None,
            },
            OsmId::Relation(_) => None,
        }
    }

    /// Every resolved coordinate came from a node's 32-bit storage.
    pub proof fn lemma_resolved_coords_range(self, nodes: Seq<i64>)
        ensures
            forall|i: int|
                0 <= i < self.spec_resolved_coords(nodes).len() ==> coord_in_range(
                    #[trigger] self.spec_resolved_coords(nodes)[i],
                ),
        decreases nodes.len(),
    {
        if nodes.len() > 0 {
            self.lemma_resolved_coords_range(nodes.drop_last());
            let rest = self.spec_resolved_coords(nodes.drop_last());
            let all = self.spec_resolved_coords(nodes);
            assert forall|i: int| 0 <= i < all.len() implies coord_in_range(#[trigger] all[i]) by {
                match self.spec_node_coords(nodes.last()) {
                    Some(c) => {
                        if i < all.len() - 1 {
                            assert(all[i] == rest[i]);
                        } else {
                            assert(all[i] == c);
                        }
                    },
                    None => {
                        assert(all[i] == rest[i]);
                    },
                }
            }
        }
    }

    fn way_centroid(&self, way: &Way) -> (r: Option<Coord>)
        requires
            self.wf(),
        ensures
            r == self.spec_way_coords(*way),
    {
        let n = way.nodes.len();
        let mut i: usize = 0;
        let mut count: usize = 0;
        let mut sum_lat: i128 = 0;
        let mut sum_lon: i128 = 0;
        proof {
            self.lemma_resolved_coords_range(way.nodes@);
        }
        while i < n
            invariant
                self.wf(),
                0 <= i <= n,
                n == way.nodes@.len(),
                count == self.spec_resolved_coords(way.nodes@.subrange(0, i as int)).len(),
                sum_lat as int == sum_lats(
                    self.spec_resolved_coords(way.nodes@.subrange(0, i as int)),
                ),
                sum_lon as int == sum_lons(
                    self.spec_resolved_coords(way.nodes@.subrange(0, i as int)),
                ),
                count <= i,
                -(count as int * 2147483648) <= sum_lat as int <= count as int * 2147483648,
                -(count as int * 2147483648) <= sum_lon as int <= count as int * 2147483648,
            decreases n - i,
        {
            let ghost prefix = way.nodes@.subrange(0, i as int);
            let ghost extended = way.nodes@.subrange(0, i as int + 1);
            proof {
                assert(extended.drop_last() =~= prefix);
                assert(extended.last() == way.nodes@[i as int]);
            }
            match self.node_coords(way.nodes[i]) {
                Some(c) => {
                    sum_lat = sum_lat + c.lat as i128;
                    sum_lon = sum_lon + c.lon as i128;
                    count += 1;
                    proof {
                        let rest = self.spec_resolved_coords(prefix);
                        let now = self.spec_resolved_coords(extended);
                        assert(now == rest.push(c));
                        assert(now.drop_last() =~= rest);
                        assert(now.last() == c);
                        assert(sum_lats(now) == sum_lats(rest) + c.lat as int);
                        assert(sum_lons(now) == sum_lons(rest) + c.lon as int);
                    }
                },
                None => {
                    proof {
                        assert(self.spec_resolved_coords(extended) == self.spec_resolved_coords(
                            prefix,
                        ));
                    }
                },
            }
            i += 1;
        }
        proof {
            assert(way.nodes@.subrange(0, n as int) =~= way.nodes@);
        }
        if count == 0 {
            None
        } else {
            let den: i128 = count as i128;
            let lat = round_div_away_wide(sum_lat, den);
            let lon = round_div_away_wide(sum_lon, den);
            proof {
                lemma_round_div_bound(sum_lat as int, den as int, 2147483648);
                lemma_round_div_bound(sum_lon as int, den as int, 2147483648);
            }
            Some(Coord { lat: lat as i64, lon: lon as i64 })
        }
    }

    /// The representative point for any id, per [`Planet::spec_obj_coords`].
    pub fn obj_coords(&self, id: OsmId) -> (r: Option<Coord>)
        requires
            self.wf(),
        ensures
            r == self.spec_obj_coords(id),
    {
        match id {
            OsmId::Node(n) => self.node_coords(n),
            OsmId::Way(w) => match assoc_get_ref(&self.ways, w) {
                Some(way) => self.way_centroid(way),
                None => None,
            },
            OsmId::Relation(_) => None,
        }
    }
}

/// A member role the model recognizes at all.
pub open spec fn known_role(r: Seq<char>) -> bool {
    r == "outer"@ || r == "inner"@ || r == "subarea"@ || r == "admin_centre"@ || r == ""@
}

/// The fatal violation a member carries, if any: an unrecognized role, or
/// a recognized role on the wrong kind of member. Way members may be
/// `outer`, `inner` or `""` (the empty role is treated like `inner` and
/// ignored); node members may carry any recognized role; relation members
/// only `subarea`.
pub open spec fn spec_member_check(m: Member) -> Option<ModelError> {
    if !known_role(m.role@) {
        Some(ModelError::UnknownRole)
    } else {
        match m.id {
            OsmId::Way(_) => if m.role@ == "subarea"@ || m.role@ == "admin_centre"@ {
                Some(ModelError::WrongKindRole)
            } else {
                None
            },
            OsmId::Node(_) => None,
            OsmId::Relation(_) => if m.role@ == "subarea"@ {
                None
            } else {
                Some(ModelError::WrongKindRole)
            },
        }
    }
}

/// The node-id fragment a member contributes to ring assembly: the node
/// list of a resolvable way with role `outer`, and nothing otherwise.
pub open spec fn spec_member_fragment(p: Planet, m: Member) -> Option<Seq<i64>> {
    match m.id {
        OsmId::Way(w) => if m.role@ == "outer"@ {
            match assoc_get(p.ways@, w) {
                Some(way) => Some(way.nodes@),
                None => None,
            }
        } else {
            None
        },
        _ => None,
    }
}

/// The outer-way fragments of a member list, in member order, or the
/// first fatal role violation.
pub open spec fn spec_collect_fragments(p: Planet, members: Seq<Member>) -> Result<
    Seq<Seq<i64>>,
    ModelError,
>
    decreases members.len(),
{
    if members.len() == 0 {
        Ok(Seq::empty())
    } else {
        match spec_member_check(members.first()) {
            Some(e) => Err(e),
            None => match spec_collect_fragments(p, members.drop_first()) {
                Err(e) => Err(e),
                Ok(rest) => match spec_member_fragment(p, members.first()) {
                    Some(f) => Ok(seq![f] + rest),
                    None => Ok(rest),
                },
            },
        }
    }
}

/// Whether a role string equals a given literal.
pub(crate) fn role_is(role: &String, lit: &str) -> (r: bool)
    ensures
        r == (role@ == lit@),
{
    let owned = lit.to_owned();
    *role == owned
}

/// A plain copy of a node-id list.
fn copy_ids(v: &Vec<i64>) -> (r: Vec<i64>)
    ensures
        r@ == v@,
{
    let n = v.len();
    let mut out: Vec<i64> = Vec::new();
    let mut i: usize = 0;
    while i < n
        invariant
            0 <= i <= n,
            n == v@.len(),
            out@ == v@.subrange(0, i as int),
        decreases n - i,
    {
        let x = v[i];
        out.push(x);
        i += 1;
        proof {
            assert(out@ =~= v@.subrange(0, i as int));
        }
    }
    proof {
        assert(v@.subrange(0, n as int) =~= v@);
    }
    out
}

impl Planet {
    /// Collects the relation's outer-way fragments in member order,
    /// surfacing the first fatal role violation instead if there is one.
    fn collect_outer_fragments(&self, rel: &Relation) -> (r: Result<Vec<Vec<i64>>, ModelError>)
        requires
            self.wf(),
        ensures
            match spec_collect_fragments(*self, rel.members@) {
                Ok(frags) => r is Ok && views_of(r->Ok_0@) == frags,
                Err(e) => r == Err::<Vec<Vec<i64>>, ModelError>(e),
            },
    {
        let n = rel.members.len();
        let mut frags: Vec<Vec<i64>> = Vec::new();
        let mut i: usize = 0;
        proof {
            assert(rel.members@.subrange(0, n as int) =~= rel.members@);
            match spec_collect_fragments(*self, rel.members@) {
                Ok(rest) => {
                    assert(views_of(frags@) + rest =~= rest);
                },
                Err(_) => {},
            }
        }
        while i < n
            invariant
                self.wf(),
                0 <= i <= n,
                n == rel.members@.len(),
                match spec_collect_fragments(*self, rel.members@.subrange(i as int, n as int)) {
                    Ok(rest) => spec_collect_fragments(*self, rel.members@) == Ok::<
                        Seq<Seq<i64>>,
                        ModelError,
                    >(views_of(frags@) + rest),
                    Err(e) => spec_collect_fragments(*self, rel.members@) == Err::<
                        Seq<Seq<i64>>,
                        ModelError,
                    >(e),
                },
            decreases n - i,
        {
            let ghost suffix = rel.members@.subrange(i as int, n as int);
            proof {
                assert(suffix.first() == rel.members@[i as int]);
                assert(suffix.drop_first() =~= rel.members@.subrange(i as int + 1, n as int));
            }
            let m = &rel.members[i];
            let outer = role_is(&m.role, "outer");
            let inner = role_is(&m.role, "inner");
            let subarea = role_is(&m.role, "subarea");
            let admin_centre = role_is(&m.role, "admin_centre");
            let empty = role_is(&m.role, "");
            if !(outer || inner || subarea || admin_centre || empty) {
                return Err(ModelError::UnknownRole);
            }
            match m.id {
                OsmId::Way(w) => {
                    if subarea || admin_centre {
                        return Err(ModelError::WrongKindRole);
                    }
                    if outer {
                        let ghost frags_before = views_of(frags@);
                        match assoc_get_ref(&self.ways, w) {
                            Some(way) => {
                                let copy = copy_ids(&way.nodes);
                                frags.push(copy);
                                proof {
                                    assert(views_of(frags@).drop_last() =~= frags_before);
                                    assert(views_of(frags@).last() == way.nodes@);
                                    assert(spec_member_fragment(*self, suffix.first()) == Some(
                                        way.nodes@,
                                    ));
                                    match spec_collect_fragments(*self, suffix.drop_first()) {
                                        Ok(rest) => {
                                            assert(views_of(frags@) + rest =~= frags_before + (
                                            seq![way.nodes@] + rest));
                                        },
                                        Err(_) => {},
                                    }
                                }
                            },
                            None => {
                                proof {
                                    assert(spec_member_fragment(*self, suffix.first()) is None);
                                }
                            },
                        }
                    }
                },
                OsmId::Node(_) => {},
                OsmId::Relation(_) => {
                    if !subarea {
                        return Err(ModelError::WrongKindRole);
                    }
                },
            }
            i += 1;
        }
        proof {
            assert(rel.members@.subrange(n as int, n as int) =~= Seq::<Member>::empty());
            match spec_collect_fragments(*self, rel.members@) {
                Ok(frags_spec) => {
                    assert(views_of(frags@) + Seq::<Seq<i64>>::empty() =~= views_of(frags@));
                },
                Err(_) => {},
            }
        }
        Ok(frags)
    }

    /// The closed rings formed from a relation's outer-way members, or
    /// `None` when the relation is unknown, has no usable boundary, has a
    /// fragment shorter than two ids, or cannot be closed; a role
    /// violation among its members is a fatal error instead.
    pub fn relation_rings(&self, rel_id: i64) -> (r: Result<Option<Vec<Vec<i64>>>, ModelError>)
        requires
            self.wf(),
        ensures
            match assoc_get(self.relations@, rel_id) {
                None => r == Ok::<Option<Vec<Vec<i64>>>, ModelError>(None),
                Some(rel) => match spec_collect_fragments(*self, rel.members@) {
                    Err(e) => r == Err::<Option<Vec<Vec<i64>>>, ModelError>(e),
                    Ok(frags) => {
                        &&& r is Ok
                        &&& (frags.len() == 0 ==> r == Ok::<Option<Vec<Vec<i64>>>, ModelError>(
                            None,
                        ))
                        &&& ((exists|i: int| 0 <= i < frags.len() && #[trigger] frags[i].len() < 2)
                            ==> r == Ok::<Option<Vec<Vec<i64>>>, ModelError>(None))
                        &&& (r->Ok_0 is None ==> (frags.len() == 0 || (exists|i: int|
                            0 <= i < frags.len() && #[trigger] frags[i].len() < 2)
                            || !even_endpoint_counts(frags)))
                        &&& (r->Ok_0 is Some ==> {
                            let rings = r->Ok_0->Some_0;
                            &&& rings@.len() >= 1
                            &&& forall|k: int|
                                0 <= k < rings@.len() ==> is_closed_ring(#[trigger] rings@[k]@)
                            &&& edges_of_all(views_of(rings@)) == edges_of_all(frags)
                            &&& even_endpoint_counts(frags)
                        })
                    },
                },
            },
    {
        let rel = match assoc_get_ref(&self.relations, rel_id) {
            Some(rel) => rel,
            None => {
                return Ok(None);
            },
        };
        let frags = match self.collect_outer_fragments(rel) {
            Ok(frags) => frags,
            Err(e) => {
                return Err(e);
            },
        };
        let ghost fvv = frags@;
        let result = assemble_rings(frags);
        proof {
            let sf = spec_collect_fragments(*self, rel.members@)->Ok_0;
            assert(views_of(fvv) == sf);
            assert forall|i: int| 0 <= i < sf.len() implies sf[i] == #[trigger] fvv[i]@ by {
                assert(views_of(fvv)[i] == fvv[i]@);
            }
            if result is None {
                if exists|i: int| 0 <= i < fvv.len() && #[trigger] fvv[i]@.len() < 2 {
                    let i = choose|i: int| 0 <= i < fvv.len() && #[trigger] fvv[i]@.len() < 2;
                    assert(sf[i].len() < 2);
                }
            } else {
                if exists|i: int| 0 <= i < sf.len() && #[trigger] sf[i].len() < 2 {
                    let i = choose|i: int| 0 <= i < sf.len() && #[trigger] sf[i].len() < 2;
                    assert(fvv[i]@.len() < 2);
                }
            }
        }
        Ok(result)
    }
}

/// The sum of the latitudes of a coordinate list.
pub open spec fn sum_lats(s: Seq<Coord>) -> int
    decreases s.len(),
{
    if s.len() == 0 {
        0
    } else {
        sum_lats(s.drop_last()) + s.last().lat as int
    }
}

/// The sum of the longitudes of a coordinate list.
pub open spec fn sum_lons(s: Seq<Coord>) -> int
    decreases s.len(),
{
    if s.len() == 0 {
        0
    } else {
        sum_lons(s.drop_last()) + s.last().lon as int
    }
}

/// In-range coordinates keep their sums within `len` times the bound.
pub proof fn lemma_sums_bounded(s: Seq<Coord>)
    requires
        forall|i: int| 0 <= i < s.len() ==> coord_in_range(#[trigger] s[i]),
    ensures
        -(s.len() as int * 2147483648) <= sum_lats(s) <= s.len() as int * 2147483648,
        -(s.len() as int * 2147483648) <= sum_lons(s) <= s.len() as int * 2147483648,
    decreases s.len(),
{
    if s.len() > 0 {
        assert forall|i: int| 0 <= i < s.drop_last().len() implies coord_in_range(
            #[trigger] s.drop_last()[i],
        ) by {
            assert(s.drop_last()[i] == s[i]);
        }
        lemma_sums_bounded(s.drop_last());
        assert(coord_in_range(s[s.len() - 1]));
    }
}

/// Every representative point the store can produce stays within one unit
/// of the 32-bit coordinate range.
pub proof fn lemma_obj_coords_in_range(p: Planet, id: OsmId)
    ensures
        match p.spec_obj_coords(id) {
            Some(c) => point_in_range(c),
            None => true,
        },
{
    match id {
        OsmId::Node(_) => {},
        OsmId::Way(w) => {
            match assoc_get(p.ways@, w) {
                Some(way) => {
                    let pts = p.spec_resolved_coords(way.nodes@);
                    p.lemma_resolved_coords_range(way.nodes@);
                    if pts.len() > 0 {
                        lemma_sums_bounded(pts);
                        lemma_round_div_bound(sum_lats(pts), pts.len() as int, 2147483648);
                        lemma_round_div_bound(sum_lons(pts), pts.len() as int, 2147483648);
                    }
                },
                None => {},
            }
        },
        OsmId::Relation(_) => {},
    }
}

} // verus!
