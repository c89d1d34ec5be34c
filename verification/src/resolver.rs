//! The address resolver: for every named point feature, the ordered chain
//! of administrative areas containing it, emitted as a record; and for
//! every indexed administrative relation, a record of its own at its
//! administrative centre.

use crate::assoc::{assoc_get, assoc_get_ref, lemma_assoc_get_some_index};
use crate::coords::{
    coord_in_range, lemma_round_div_bound, point_in_range, round_div_away_wide,
    spec_round_div_away, Coord,
};
use crate::ids::{parse_u8_str, spec_parse_u8, OsmId};
use crate::index::{spec_containing, PolygonIndex, RelationPolygons};
use crate::planet::{
    lemma_obj_coords_in_range, role_is, sum_lats, sum_lons, Member, ModelError, Node, Planet, Way,
};
use vstd::prelude::*;

verus! {

/// The reserved sentinel level marking a non-administrative point
/// feature: strictly greater than every real administrative level.
pub const BUILDING_LEVEL: u8 = 255;

/// One output row: a named feature, its administrative ancestors from
/// most to least specific, and its coordinate in decimicro degrees.
pub struct Record {
    pub name: String,
    pub alt_name: Option<String>,
    pub operator: Option<String>,
    pub osm_id: OsmId,
    pub location: Vec<String>,
    pub decimicro_lat: i64,
    pub decimicro_lon: i64,
    pub admin_level: u8,
}

/// The mathematical content of a record.
pub struct RecordView {
    pub name: Seq<char>,
    pub alt_name: Option<Seq<char>>,
    pub operator: Option<Seq<char>>,
    pub osm_id: OsmId,
    pub location: Seq<Seq<char>>,
    pub decimicro_lat: i64,
    pub decimicro_lon: i64,
    pub admin_level: u8,
}

impl View for Record {
    type V = RecordView;

    open spec fn view(&self) -> RecordView {
        RecordView {
            name: self.name@,
            alt_name: match self.alt_name {
                Some(s) => Some(s@),
                None => None,
            },
            operator: match self.operator {
                Some(s) => Some(s@),
                None => None,
            },
            osm_id: self.osm_id,
            location: self.location@.map_values(|s: String| s@),
            decimicro_lat: self.decimicro_lat,
            decimicro_lon: self.decimicro_lon,
            admin_level: self.admin_level,
        }
    }
}

/// The name/level views of a pair list.
pub open spec fn pairs_view(s: Seq<(String, u8)>) -> Seq<(Seq<char>, u8)> {
    s.map_values(|p: (String, u8)| (p.0@, p.1))
}

/// The character sequences of a string list.
pub open spec fn strings_view(s: Seq<String>) -> Seq<Seq<char>> {
    s.map_values(|x: String| x@)
}

/// The names carried at exactly level `l`, in scan order.
pub open spec fn level_names(pairs: Seq<(Seq<char>, u8)>, l: u8) -> Seq<Seq<char>>
    decreases pairs.len(),
{
    if pairs.len() == 0 {
        Seq::empty()
    } else {
        level_names(pairs.drop_last(), l) + (if pairs.last().1 == l {
            seq![pairs.last().0]
        } else {
            Seq::empty()
        })
    }
}

/// The names at levels `l` down to 0, most specific level first, ties at
/// one level in scan order.
pub open spec fn chain_from(pairs: Seq<(Seq<char>, u8)>, l: int) -> Seq<Seq<char>>
    decreases l + 1,
{
    if l < 0 {
        Seq::empty()
    } else {
        level_names(pairs, l as u8) + chain_from(pairs, l - 1)
    }
}

/// The location chain: the containing areas' names ordered from the most
/// locally specific (highest level) to the least, equal levels keeping
/// the containment scan's order.
pub open spec fn spec_location_chain(pairs: Seq<(Seq<char>, u8)>) -> Seq<Seq<char>> {
    chain_from(pairs, 255)
}

/// Orders the `(name, admin_level)` pairs by descending level, stably,
/// and keeps the names.
pub fn location_chain(pairs: &Vec<(String, u8)>) -> (r: Vec<String>)
    ensures
        strings_view(r@) == spec_location_chain(pairs_view(pairs@)),
{
    let ghost pv = pairs_view(pairs@);
    let mut out: Vec<String> = Vec::new();
    let mut lvl: i32 = 255;
    proof {
        assert(strings_view(out@) + chain_from(pv, 255) =~= chain_from(pv, 255));
    }
    while lvl >= 0
        invariant
            -1 <= lvl <= 255,
            pv == pairs_view(pairs@),
            chain_from(pv, 255) == strings_view(out@) + chain_from(pv, lvl as int),
        decreases lvl + 1,
    {
        let target: u8 = lvl as u8;
        let ghost out_entry = strings_view(out@);
        let n = pairs.len();
        let mut j: usize = 0;
        proof {
            assert(strings_view(out@) =~= out_entry + level_names(pv.subrange(0, 0), target));
        }
        while j < n
            invariant
                0 <= j <= n,
                n == pairs@.len(),
                pv == pairs_view(pairs@),
                strings_view(out@) == out_entry + level_names(pv.subrange(0, j as int), target),
            decreases n - j,
        {
            let ghost prefix = pv.subrange(0, j as int);
            let ghost extended = pv.subrange(0, j as int + 1);
            proof {
                assert(extended.drop_last() =~= prefix);
                assert(extended.last() == pv[j as int]);
                assert(pv[j as int] == (pairs@[j as int].0@, pairs@[j as int].1));
            }
            if pairs[j].1 == target {
                let name = pairs[j].0.clone();
                let ghost nv = name@;
                let ghost out_prev = strings_view(out@);
                out.push(name);
                proof {
                    assert(nv == pv[j as int].0);
                    assert(level_names(extended, target) =~= level_names(prefix, target)
                        + seq![pv[j as int].0]);
                    assert(strings_view(out@).len() == out_prev.len() + 1);
                    assert(strings_view(out@).last() == nv);
                    assert forall|k: int| 0 <= k < out_prev.len() implies strings_view(out@)[k]
                        == out_prev[k] by {
                        assert(out@[k] == out@.drop_last()[k]);
                    }
                    assert(strings_view(out@) =~= out_prev.push(nv));
                    assert(strings_view(out@) =~= out_entry + level_names(extended, target));
                }
            } else {
                proof {
                    assert(level_names(extended, target) =~= level_names(prefix, target));
                }
            }
            j += 1;
        }
        proof {
            assert(pv.subrange(0, n as int) =~= pv);
            assert(chain_from(pv, lvl as int) == level_names(pv, target) + chain_from(
                pv,
                lvl as int - 1,
            ));
            assert(strings_view(out@) + chain_from(pv, lvl as int - 1) =~= (out_entry
                + level_names(pv, target)) + chain_from(pv, lvl as int - 1));
            assert((out_entry + level_names(pv, target)) + chain_from(pv, lvl as int - 1)
                =~= out_entry + (level_names(pv, target) + chain_from(pv, lvl as int - 1)));
        }
        lvl = lvl - 1;
    }
    out
}

/// No pair carries level `l`, so that level contributes no names.
proof fn lemma_level_names_empty(pairs: Seq<(Seq<char>, u8)>, l: u8)
    requires
        forall|i: int| 0 <= i < pairs.len() ==> (#[trigger] pairs[i]).1 != l,
    ensures
        level_names(pairs, l) == Seq::<Seq<char>>::empty(),
    decreases pairs.len(),
{
    if pairs.len() > 0 {
        assert(pairs[pairs.len() - 1].1 != l);
        assert forall|i: int| 0 <= i < pairs.drop_last().len() implies (#[trigger] pairs.drop_last(
        )[i]).1 != l by {
            assert(pairs.drop_last()[i] == pairs[i]);
        }
        lemma_level_names_empty(pairs.drop_last(), l);
        assert(level_names(pairs, l) =~= Seq::<Seq<char>>::empty());
    }
}

/// Exactly one pair carries level `l`, so that level contributes exactly
/// its name.
proof fn lemma_level_names_one(pairs: Seq<(Seq<char>, u8)>, l: u8, at: int)
    requires
        0 <= at < pairs.len(),
        pairs[at].1 == l,
        forall|i: int| 0 <= i < pairs.len() && i != at ==> (#[trigger] pairs[i]).1 != l,
    ensures
        level_names(pairs, l) == seq![pairs[at].0],
    decreases pairs.len(),
{
    if at == pairs.len() - 1 {
        assert forall|i: int| 0 <= i < pairs.drop_last().len() implies (#[trigger] pairs.drop_last(
        )[i]).1 != l by {
            assert(pairs.drop_last()[i] == pairs[i]);
        }
        lemma_level_names_empty(pairs.drop_last(), l);
        assert(level_names(pairs, l) =~= seq![pairs[at].0]);
    } else {
        assert(pairs[pairs.len() - 1].1 != l);
        assert(pairs.drop_last()[at] == pairs[at]);
        assert forall|i: int|
            0 <= i < pairs.drop_last().len() && i != at implies (#[trigger] pairs.drop_last(
        )[i]).1 != l by {
            assert(pairs.drop_last()[i] == pairs[i]);
        }
        lemma_level_names_one(pairs.drop_last(), l, at);
        assert(level_names(pairs, l) =~= seq![pairs[at].0]);
    }
}

/// Levels nobody carries contribute nothing anywhere between two bounds.
proof fn lemma_chain_skip(pairs: Seq<(Seq<char>, u8)>, hi: int, lo: int)
    requires
        -1 <= lo <= hi <= 255,
        forall|i: int|
            0 <= i < pairs.len() ==> !(lo < (#[trigger] pairs[i]).1 <= hi),
    ensures
        chain_from(pairs, hi) == chain_from(pairs, lo),
    decreases hi - lo,
{
    if hi > lo {
        lemma_level_names_empty(pairs, hi as u8);
        assert(chain_from(pairs, hi) =~= chain_from(pairs, hi - 1));
        lemma_chain_skip(pairs, hi - 1, lo);
    }
}

/// Law: the location chain orders areas from most to least specific
/// regardless of discovery order — any arrangement of three areas with
/// the distinct levels 8, 4 and 2 yields exactly their names in that
/// order.
pub proof fn lemma_location_ordering(
    pairs: Seq<(Seq<char>, u8)>,
    a: Seq<char>,
    b: Seq<char>,
    c: Seq<char>,
)
    requires
        pairs.len() == 3,
        forall|i: int|
            0 <= i < 3 ==> (#[trigger] pairs[i] == (a, 8u8) || pairs[i] == (b, 4u8) || pairs[i] == (
            c,
            2u8,
            )),
        exists|i: int| 0 <= i < 3 && #[trigger] pairs[i] == (a, 8u8),
        exists|i: int| 0 <= i < 3 && #[trigger] pairs[i] == (b, 4u8),
        exists|i: int| 0 <= i < 3 && #[trigger] pairs[i] == (c, 2u8),
    ensures
        spec_location_chain(pairs) == seq![a, b, c],
{
    let i8 = choose|i: int| 0 <= i < 3 && #[trigger] pairs[i] == (a, 8u8);
    let i4 = choose|i: int| 0 <= i < 3 && #[trigger] pairs[i] == (b, 4u8);
    let i2 = choose|i: int| 0 <= i < 3 && #[trigger] pairs[i] == (c, 2u8);
    assert(i8 != i4 && i8 != i2 && i4 != i2);
    assert forall|i: int| 0 <= i < 3 && i != i8 implies (#[trigger] pairs[i]).1 != 8u8 by {
        assert(i == i4 || i == i2);
    }
    assert forall|i: int| 0 <= i < 3 && i != i4 implies (#[trigger] pairs[i]).1 != 4u8 by {
        assert(i == i8 || i == i2);
    }
    assert forall|i: int| 0 <= i < 3 && i != i2 implies (#[trigger] pairs[i]).1 != 2u8 by {
        assert(i == i8 || i == i4);
    }
    assert forall|i: int| 0 <= i < pairs.len() implies !(8 < (#[trigger] pairs[i]).1 <= 255) by {}
    lemma_chain_skip(pairs, 255, 8);
    lemma_level_names_one(pairs, 8u8, i8);
    assert(chain_from(pairs, 8) == seq![a] + chain_from(pairs, 7));
    lemma_chain_skip(pairs, 7, 4);
    lemma_level_names_one(pairs, 4u8, i4);
    assert(chain_from(pairs, 4) == seq![b] + chain_from(pairs, 3));
    lemma_chain_skip(pairs, 3, 2);
    lemma_level_names_one(pairs, 2u8, i2);
    assert(chain_from(pairs, 2) == seq![c] + chain_from(pairs, 1));
    lemma_chain_skip(pairs, 1, -1);
    assert(chain_from(pairs, -1) == Seq::<Seq<char>>::empty());
    assert(spec_location_chain(pairs) =~= seq![a, b, c]);
}

/// The `(name, admin_level)` pair one containing relation contributes to
/// a location chain: nothing when the relation is unknown or misses
/// either tag, and a fatal error when its level does not parse.
pub open spec fn spec_rel_pair(p: Planet, rel_id: i64) -> Result<
    Option<(Seq<char>, u8)>,
    ModelError,
> {
    match assoc_get(p.relations@, rel_id) {
        None => Ok(None),
        Some(rel) => {
            if !rel.tags@.contains_key("name"@) || !rel.tags@.contains_key("admin_level"@) {
                Ok(None)
            } else {
                match spec_parse_u8(rel.tags@["admin_level"@]) {
                    None => Err(ModelError::InvalidAdminLevel),
                    Some(v) => Ok(Some((rel.tags@["name"@], v as u8))),
                }
            }
        },
    }
}

/// The chain pairs of a containment scan's relation ids, in scan order,
/// or the first fatal error among them.
pub open spec fn spec_chain_pairs(p: Planet, ids: Seq<i64>) -> Result<
    Seq<(Seq<char>, u8)>,
    ModelError,
>
    decreases ids.len(),
{
    if ids.len() == 0 {
        Ok(Seq::empty())
    } else {
        match spec_rel_pair(p, ids.first()) {
            Err(e) => Err(e),
            Ok(opt) => match spec_chain_pairs(p, ids.drop_first()) {
                Err(e) => Err(e),
                Ok(rest) => match opt {
                    Some(pr) => Ok(seq![pr] + rest),
                    None => Ok(rest),
                },
            },
        }
    }
}

/// Reads each containing relation's `name` and `admin_level` tags,
/// skipping relations that miss either.
fn chain_pairs(planet: &Planet, ids: &Vec<i64>) -> (r: Result<Vec<(String, u8)>, ModelError>)
    requires
        planet.wf(),
    ensures
        match r {
            Ok(pairs) => spec_chain_pairs(*planet, ids@) == Ok::<Seq<(Seq<char>, u8)>, ModelError>(
                pairs_view(pairs@),
            ),
            Err(e) => spec_chain_pairs(*planet, ids@) == Err::<Seq<(Seq<char>, u8)>, ModelError>(e),
        },
{
    let n = ids.len();
    let mut pairs: Vec<(String, u8)> = Vec::new();
    let mut i: usize = 0;
    proof {
        assert(ids@.subrange(0, n as int) =~= ids@);
        match spec_chain_pairs(*planet, ids@) {
            Ok(rest) => {
                assert(pairs_view(pairs@) + rest =~= rest);
            },
            Err(_) => {},
        }
    }
    while i < n
        invariant
            planet.wf(),
            0 <= i <= n,
            n == ids@.len(),
            match spec_chain_pairs(*planet, ids@.subrange(i as int, n as int)) {
                Ok(rest) => spec_chain_pairs(*planet, ids@) == Ok::<
                    Seq<(Seq<char>, u8)>,
                    ModelError,
                >(pairs_view(pairs@) + rest),
                Err(e) => spec_chain_pairs(*planet, ids@) == Err::<
                    Seq<(Seq<char>, u8)>,
                    ModelError,
                >(e),
            },
        decreases n - i,
    {
        let ghost suffix = ids@.subrange(i as int, n as int);
        proof {
            assert(suffix.first() == ids@[i as int]);
            assert(suffix.drop_first() =~= ids@.subrange(i as int + 1, n as int));
        }
        let rel_id = ids[i];
        match assoc_get_ref(&planet.relations, rel_id) {
            None => {},
            Some(rel) => {
                proof {
                    lemma_assoc_get_some_index(planet.relations@, rel_id);
                    let k = choose|k: int|
                        0 <= k < planet.relations@.len() && planet.relations@[k] == (
                        rel_id,
                        assoc_get(planet.relations@, rel_id)->Some_0,
                        );
                    assert(planet.relations@[k].1.wf());
                }
                let name_opt = rel.tags.get("name");
                if let Some(name) = name_opt {
                    if let Some(lvl_str) = rel.tags.get("admin_level") {
                        match parse_u8_str(lvl_str.as_str()) {
                            None => {
                                return Err(ModelError::InvalidAdminLevel);
                            },
                            Some(lvl) => {
                                let nv = name.clone();
                                let ghost pairs_prev = pairs_view(pairs@);
                                let ghost pr = (nv@, lvl);
                                pairs.push((nv, lvl));
                                proof {
                                    assert(pairs_view(pairs@).len() == pairs_prev.len() + 1);
                                    assert(pairs_view(pairs@).last() == pr);
                                    assert forall|k: int|
                                        0 <= k < pairs_prev.len() implies pairs_view(pairs@)[k]
                                        == pairs_prev[k] by {
                                        assert(pairs@[k] == pairs@.drop_last()[k]);
                                    }
                                    assert(pairs_view(pairs@) =~= pairs_prev.push(pr));
                                    assert(spec_rel_pair(*planet, rel_id) == Ok::<
                                        Option<(Seq<char>, u8)>,
                                        ModelError,
                                    >(Some(pr)));
                                    match spec_chain_pairs(*planet, suffix.drop_first()) {
                                        Ok(rest) => {
                                            assert(pairs_view(pairs@) + rest =~= pairs_prev + (
                                            seq![pr] + rest));
                                        },
                                        Err(_) => {},
                                    }
                                }
                            },
                        }
                    }
                }
            },
        }
        i += 1;
    }
    proof {
        assert(ids@.subrange(n as int, n as int) =~= Seq::<i64>::empty());
        match spec_chain_pairs(*planet, ids@) {
            Ok(_) => {
                assert(pairs_view(pairs@) + Seq::<(Seq<char>, u8)>::empty() =~= pairs_view(
                    pairs@,
                ));
            },
            Err(_) => {},
        }
    }
    Ok(pairs)
}

/// The node ids of the store whose metadata carries a name, store order.
pub open spec fn spec_named_node_ids(s: Seq<(i64, Node)>) -> Seq<OsmId>
    decreases s.len(),
{
    if s.len() == 0 {
        Seq::empty()
    } else {
        spec_named_node_ids(s.drop_last()) + (if s.last().1.meta@ is Some {
            seq![OsmId::Node(s.last().0)]
        } else {
            Seq::empty()
        })
    }
}

/// The way ids of the store whose metadata carries a name, store order.
pub open spec fn spec_named_way_ids(s: Seq<(i64, Way)>) -> Seq<OsmId>
    decreases s.len(),
{
    if s.len() == 0 {
        Seq::empty()
    } else {
        spec_named_way_ids(s.drop_last()) + (if s.last().1.meta@ is Some {
            seq![OsmId::Way(s.last().0)]
        } else {
            Seq::empty()
        })
    }
}

/// Every point feature the resolver visits: the named nodes, then the
/// named ways, in store order.
pub fn named_features(planet: &Planet) -> (r: Vec<OsmId>)
    ensures
        r@ == spec_named_node_ids(planet.nodes@) + spec_named_way_ids(planet.ways@),
{
    let mut out: Vec<OsmId> = Vec::new();
    let n = planet.nodes.len();
    let mut i: usize = 0;
    proof {
        assert(out@ =~= spec_named_node_ids(planet.nodes@.subrange(0, 0)));
    }
    while i < n
        invariant
            0 <= i <= n,
            n == planet.nodes@.len(),
            out@ == spec_named_node_ids(planet.nodes@.subrange(0, i as int)),
        decreases n - i,
    {
        let ghost prefix = planet.nodes@.subrange(0, i as int);
        let ghost extended = planet.nodes@.subrange(0, i as int + 1);
        proof {
            assert(extended.drop_last() =~= prefix);
            assert(extended.last() == planet.nodes@[i as int]);
        }
        if planet.nodes[i].1.meta.name.is_some() {
            let id = planet.nodes[i].0;
            out.push(OsmId::Node(id));
            proof {
                assert(out@ =~= spec_named_node_ids(extended));
            }
        } else {
            proof {
                assert(out@ =~= spec_named_node_ids(extended));
            }
        }
        i += 1;
    }
    proof {
        assert(planet.nodes@.subrange(0, n as int) =~= planet.nodes@);
    }
    let ghost base = spec_named_node_ids(planet.nodes@);
    let m = planet.ways.len();
    let mut j: usize = 0;
    proof {
        assert(out@ =~= base + spec_named_way_ids(planet.ways@.subrange(0, 0)));
    }
    while j < m
        invariant
            0 <= j <= m,
            m == planet.ways@.len(),
            base == spec_named_node_ids(planet.nodes@),
            out@ == base + spec_named_way_ids(planet.ways@.subrange(0, j as int)),
        decreases m - j,
    {
        let ghost prefix = planet.ways@.subrange(0, j as int);
        let ghost extended = planet.ways@.subrange(0, j as int + 1);
        proof {
            assert(extended.drop_last() =~= prefix);
            assert(extended.last() == planet.ways@[j as int]);
        }
        if planet.ways[j].1.meta.name.is_some() {
            let id = planet.ways[j].0;
            out.push(OsmId::Way(id));
            proof {
                assert(out@ =~= base + spec_named_way_ids(extended));
            }
        } else {
            proof {
                assert(out@ =~= base + spec_named_way_ids(extended));
            }
        }
        j += 1;
    }
    proof {
        assert(planet.ways@.subrange(0, m as int) =~= planet.ways@);
    }
    out
}

/// The mean of a coordinate list, rounded half away from zero; `None` of
/// an empty list.
pub open spec fn spec_coords_mean(pts: Seq<Coord>) -> Option<Coord> {
    if pts.len() == 0 {
        None
    } else {
        Some(
            Coord {
                lat: spec_round_div_away(sum_lats(pts), pts.len() as int) as i64,
                lon: spec_round_div_away(sum_lons(pts), pts.len() as int) as i64,
            },
        )
    }
}

fn coords_mean(pts: &Vec<Coord>) -> (r: Option<Coord>)
    requires
        forall|i: int| 0 <= i < pts@.len() ==> point_in_range(#[trigger] pts@[i]),
    ensures
        r == spec_coords_mean(pts@),
        r matches Some(c) ==> point_in_range(c),
{
    let n = pts.len();
    if n == 0 {
        return None;
    }
    let mut sum_lat: i128 = 0;
    let mut sum_lon: i128 = 0;
    let mut i: usize = 0;
    while i < n
        invariant
            0 <= i <= n,
            n == pts@.len(),
            forall|k: int| 0 <= k < pts@.len() ==> point_in_range(#[trigger] pts@[k]),
            sum_lat as int == sum_lats(pts@.subrange(0, i as int)),
            sum_lon as int == sum_lons(pts@.subrange(0, i as int)),
            -(i as int * 2147483648) <= sum_lat as int <= i as int * 2147483648,
            -(i as int * 2147483648) <= sum_lon as int <= i as int * 2147483648,
        decreases n - i,
    {
        let ghost prefix = pts@.subrange(0, i as int);
        let ghost extended = pts@.subrange(0, i as int + 1);
        proof {
            assert(extended.drop_last() =~= prefix);
            assert(extended.last() == pts@[i as int]);
            assert(point_in_range(pts@[i as int]));
        }
        let c = pts[i];
        sum_lat = sum_lat + c.lat as i128;
        sum_lon = sum_lon + c.lon as i128;
        i += 1;
    }
    proof {
        assert(pts@.subrange(0, n as int) =~= pts@);
        lemma_round_div_bound(sum_lat as int, n as int, 2147483648);
        lemma_round_div_bound(sum_lon as int, n as int, 2147483648);
    }
    let den: i128 = n as i128;
    let lat = round_div_away_wide(sum_lat, den);
    let lon = round_div_away_wide(sum_lon, den);
    Some(Coord { lat: lat as i64, lon: lon as i64 })
}

/// The rounded means of the non-empty rings, ring order.
pub open spec fn spec_ring_means(rings: Seq<Vec<Coord>>) -> Seq<Coord>
    decreases rings.len(),
{
    if rings.len() == 0 {
        Seq::empty()
    } else {
        spec_ring_means(rings.drop_last()) + (match spec_coords_mean(rings.last()@) {
            Some(c) => seq![c],
            None => Seq::empty(),
        })
    }
}

/// The representative point of a set of rings: the mean of the rings'
/// vertex means, rounded half away from zero at each stage; `None` when
/// there is no vertex at all.
pub open spec fn spec_rings_centroid(rings: Seq<Vec<Coord>>) -> Option<Coord> {
    spec_coords_mean(spec_ring_means(rings))
}

fn rings_centroid(rings: &Vec<Vec<Coord>>) -> (r: Option<Coord>)
    requires
        forall|i: int, j: int|
            0 <= i < rings@.len() && 0 <= j < rings@[i]@.len() ==> coord_in_range(
                #[trigger] rings@[i]@[j],
            ),
    ensures
        r == spec_rings_centroid(rings@),
        r matches Some(c) ==> point_in_range(c),
{
    let n = rings.len();
    let mut means: Vec<Coord> = Vec::new();
    let mut i: usize = 0;
    proof {
        assert(means@ =~= spec_ring_means(rings@.subrange(0, 0)));
    }
    while i < n
        invariant
            0 <= i <= n,
            n == rings@.len(),
            forall|a: int, b: int|
                0 <= a < rings@.len() && 0 <= b < rings@[a]@.len() ==> coord_in_range(
                    #[trigger] rings@[a]@[b],
                ),
            means@ == spec_ring_means(rings@.subrange(0, i as int)),
            forall|k: int| 0 <= k < means@.len() ==> point_in_range(#[trigger] means@[k]),
        decreases n - i,
    {
        let ghost prefix = rings@.subrange(0, i as int);
        let ghost extended = rings@.subrange(0, i as int + 1);
        proof {
            assert(extended.drop_last() =~= prefix);
            assert(extended.last() == rings@[i as int]);
            assert forall|k: int|
                0 <= k < rings@[i as int]@.len() implies point_in_range(
                #[trigger] rings@[i as int]@[k],
            ) by {
                assert(coord_in_range(rings@[i as int]@[k]));
            }
        }
        match coords_mean(&rings[i]) {
            Some(c) => {
                means.push(c);
                proof {
                    assert(means@ =~= spec_ring_means(extended));
                }
            },
            None => {
                proof {
                    assert(means@ =~= spec_ring_means(extended));
                }
            },
        }
        i += 1;
    }
    proof {
        assert(rings@.subrange(0, n as int) =~= rings@);
    }
    coords_mean(&means)
}

/// The first member carrying role `admin_centre`, if any.
pub open spec fn spec_first_admin_centre(members: Seq<Member>) -> Option<OsmId>
    decreases members.len(),
{
    if members.len() == 0 {
        None
    } else if members.first().role@ == "admin_centre"@ {
        Some(members.first().id)
    } else {
        spec_first_admin_centre(members.drop_first())
    }
}

fn find_admin_centre(members: &Vec<Member>) -> (r: Option<OsmId>)
    ensures
        r == spec_first_admin_centre(members@),
{
    let n = members.len();
    let mut i: usize = 0;
    proof {
        assert(members@.subrange(0, n as int) =~= members@);
    }
    while i < n
        invariant
            0 <= i <= n,
            n == members@.len(),
            spec_first_admin_centre(members@) == spec_first_admin_centre(
                members@.subrange(i as int, n as int),
            ),
        decreases n - i,
    {
        let ghost suffix = members@.subrange(i as int, n as int);
        proof {
            assert(suffix.first() == members@[i as int]);
            assert(suffix.drop_first() =~= members@.subrange(i as int + 1, n as int));
        }
        if role_is(&members[i].role, "admin_centre") {
            return Some(members[i].id);
        }
        i += 1;
    }
    proof {
        assert(members@.subrange(n as int, n as int) =~= Seq::<Member>::empty());
    }
    None
}

/// The display name a feature id carries, if the feature exists and is
/// named.
pub open spec fn spec_feature_name(p: Planet, id: OsmId) -> Option<Seq<char>> {
    match id {
        OsmId::Node(n) => match assoc_get(p.nodes@, n) {
            Some(node) => node.meta@,
            None => None,
        },
        OsmId::Way(w) => match assoc_get(p.ways@, w) {
            Some(way) => way.meta@,
            None => None,
        },
        OsmId::Relation(_) => None,
    }
}

/// What resolving one feature produces: nothing when it is unnamed or its
/// coordinate cannot be resolved; otherwise a record carrying its name,
/// its location chain from the containment scan, its coordinate, and the
/// building sentinel level.
pub open spec fn spec_resolve_feature(
    p: Planet,
    entries: Seq<RelationPolygons>,
    id: OsmId,
) -> Result<Option<RecordView>, ModelError> {
    match spec_feature_name(p, id) {
        None => Ok(None),
        Some(name) => match p.spec_obj_coords(id) {
            None => Ok(None),
            Some(c) => match spec_chain_pairs(p, spec_containing(entries, c)) {
                Err(e) => Err(e),
                Ok(pairs) => Ok(
                    Some(
                        RecordView {
                            name,
                            alt_name: None,
                            operator: None,
                            osm_id: id,
                            location: spec_location_chain(pairs),
                            decimicro_lat: c.lat,
                            decimicro_lon: c.lon,
                            admin_level: BUILDING_LEVEL,
                        },
                    ),
                ),
            },
        },
    }
}

/// Resolves one named feature into its record, per
/// [`spec_resolve_feature`].
pub fn resolve_feature(planet: &Planet, index: &PolygonIndex, id: OsmId) -> (r: Result<
    Option<Record>,
    ModelError,
>)
    requires
        planet.wf(),
        index.wf(*planet),
    ensures
        match r {
            Ok(Some(rec)) => spec_resolve_feature(*planet, index.entries@, id) == Ok::<
                Option<RecordView>,
                ModelError,
            >(Some(rec@)),
            Ok(None) => spec_resolve_feature(*planet, index.entries@, id) == Ok::<
                Option<RecordView>,
                ModelError,
            >(None),
            Err(e) => spec_resolve_feature(*planet, index.entries@, id) == Err::<
                Option<RecordView>,
                ModelError,
            >(e),
        },
{
    let name: String = match id {
        OsmId::Node(n) => match assoc_get_ref(&planet.nodes, n) {
            Some(node) => match &node.meta.name {
                Some(s) => s.clone(),
                None => {
                    return Ok(None);
                },
            },
            None => {
                return Ok(None);
            },
        },
        OsmId::Way(w) => match assoc_get_ref(&planet.ways, w) {
            Some(way) => match &way.meta.name {
                Some(s) => s.clone(),
                None => {
                    return Ok(None);
                },
            },
            None => {
                return Ok(None);
            },
        },
        OsmId::Relation(_) => {
            return Ok(None);
        },
    };
    let coord = match planet.obj_coords(id) {
        Some(c) => c,
        None => {
            return Ok(None);
        },
    };
    proof {
        lemma_obj_coords_in_range(*planet, id);
    }
    let rel_ids = index.containing(planet, coord);
    let pairs = match chain_pairs(planet, &rel_ids) {
        Ok(pairs) => pairs,
        Err(e) => {
            return Err(e);
        },
    };
    let location = location_chain(&pairs);
    let rec = Record {
        name,
        alt_name: None,
        operator: None,
        osm_id: id,
        location,
        decimicro_lat: coord.lat,
        decimicro_lon: coord.lon,
        admin_level: BUILDING_LEVEL,
    };
    Ok(Some(rec))
}

/// The record views of a record list.
pub open spec fn records_view(s: Seq<Record>) -> Seq<RecordView> {
    s.map_values(|r: Record| r@)
}

/// What resolving every named feature produces, in feature order, or the
/// first fatal error among them.
pub open spec fn spec_resolve_all(
    p: Planet,
    entries: Seq<RelationPolygons>,
    ids: Seq<OsmId>,
) -> Result<Seq<RecordView>, ModelError>
    decreases ids.len(),
{
    if ids.len() == 0 {
        Ok(Seq::empty())
    } else {
        match spec_resolve_feature(p, entries, ids.first()) {
            Err(e) => Err(e),
            Ok(opt) => match spec_resolve_all(p, entries, ids.drop_first()) {
                Err(e) => Err(e),
                Ok(rest) => match opt {
                    Some(rv) => Ok(seq![rv] + rest),
                    None => Ok(rest),
                },
            },
        }
    }
}

/// Resolves every named node and way of the planet, in store order.
pub fn resolve_all(planet: &Planet, index: &PolygonIndex) -> (r: Result<Vec<Record>, ModelError>)
    requires
        planet.wf(),
        index.wf(*planet),
    ensures
        ({
            let ids = spec_named_node_ids(planet.nodes@) + spec_named_way_ids(planet.ways@);
            match r {
                Ok(recs) => spec_resolve_all(*planet, index.entries@, ids) == Ok::<
                    Seq<RecordView>,
                    ModelError,
                >(records_view(recs@)),
                Err(e) => spec_resolve_all(*planet, index.entries@, ids) == Err::<
                    Seq<RecordView>,
                    ModelError,
                >(e),
            }
        }),
{
    let features = named_features(planet);
    let n = features.len();
    let mut out: Vec<Record> = Vec::new();
    let mut i: usize = 0;
    proof {
        assert(features@.subrange(0, n as int) =~= features@);
        match spec_resolve_all(*planet, index.entries@, features@) {
            Ok(rest) => {
                assert(records_view(out@) + rest =~= rest);
            },
            Err(_) => {},
        }
    }
    while i < n
        invariant
            planet.wf(),
            index.wf(*planet),
            0 <= i <= n,
            n == features@.len(),
            features@ == spec_named_node_ids(planet.nodes@) + spec_named_way_ids(planet.ways@),
            match spec_resolve_all(
                *planet,
                index.entries@,
                features@.subrange(i as int, n as int),
            ) {
                Ok(rest) => spec_resolve_all(*planet, index.entries@, features@) == Ok::<
                    Seq<RecordView>,
                    ModelError,
                >(records_view(out@) + rest),
                Err(e) => spec_resolve_all(*planet, index.entries@, features@) == Err::<
                    Seq<RecordView>,
                    ModelError,
                >(e),
            },
        decreases n - i,
    {
        let ghost suffix = features@.subrange(i as int, n as int);
        proof {
            assert(suffix.first() == features@[i as int]);
            assert(suffix.drop_first() =~= features@.subrange(i as int + 1, n as int));
        }
        match resolve_feature(planet, index, features[i]) {
            Err(e) => {
                proof {
                    assert(spec_resolve_feature(*planet, index.entries@, suffix.first())
                        == Err::<Option<RecordView>, ModelError>(e));
                    assert(spec_resolve_all(*planet, index.entries@, suffix) == Err::<
                        Seq<RecordView>,
                        ModelError,
                    >(e));
                }
                return Err(e);
            },
            Ok(None) => {},
            Ok(Some(rec)) => {
                let ghost out_prev = records_view(out@);
                let ghost rv = rec@;
                out.push(rec);
                proof {
                    assert(records_view(out@).len() == out_prev.len() + 1);
                    assert(records_view(out@).last() == rv);
                    assert forall|k: int| 0 <= k < out_prev.len() implies records_view(out@)[k]
                        == out_prev[k] by {
                        assert(out@[k] == out@.drop_last()[k]);
                    }
                    assert(records_view(out@) =~= out_prev.push(rv));
                    match spec_resolve_all(*planet, index.entries@, suffix.drop_first()) {
                        Ok(rest) => {
                            assert(records_view(out@) + rest =~= out_prev + (seq![rv] + rest));
                        },
                        Err(_) => {},
                    }
                }
            },
        }
        i += 1;
    }
    proof {
        assert(features@.subrange(n as int, n as int) =~= Seq::<OsmId>::empty());
        match spec_resolve_all(*planet, index.entries@, features@) {
            Ok(_) => {
                assert(records_view(out@) + Seq::<RecordView>::empty() =~= records_view(out@));
            },
            Err(_) => {},
        }
    }
    Ok(out)
}

/// The record an indexed administrative relation emits for itself:
/// nothing when its `name` or `admin_level` tag is missing or no centre
/// can be derived; its level must parse and stay below the building
/// sentinel, else the run fails. The centre is the first `admin_centre`
/// member's point when that resolves, and the rings' representative point
/// otherwise; the location chain is empty.
pub open spec fn spec_relation_record(p: Planet, e: RelationPolygons) -> Result<
    Option<RecordView>,
    ModelError,
> {
    match assoc_get(p.relations@, e.rel_id) {
        None => Ok(None),
        Some(rel) => {
            if !rel.tags@.contains_key("name"@) || !rel.tags@.contains_key("admin_level"@) {
                Ok(None)
            } else {
                match spec_parse_u8(rel.tags@["admin_level"@]) {
                    None => Err(ModelError::InvalidAdminLevel),
                    Some(lvl) => {
                        let centre = match spec_first_admin_centre(rel.members@) {
                            Some(cid) => match p.spec_obj_coords(cid) {
                                Some(c) => Some(c),
                                None => spec_rings_centroid(e.rings@),
                            },
                            None => spec_rings_centroid(e.rings@),
                        };
                        match centre {
                            None => Ok(None),
                            Some(c) => if lvl >= BUILDING_LEVEL as int {
                                Err(ModelError::AdminLevelViolation)
                            } else {
                                Ok(
                                    Some(
                                        RecordView {
                                            name: rel.tags@["name"@],
                                            alt_name: None,
                                            operator: None,
                                            osm_id: OsmId::Relation(e.rel_id),
                                            location: Seq::empty(),
                                            decimicro_lat: c.lat,
                                            decimicro_lon: c.lon,
                                            admin_level: lvl as u8,
                                        },
                                    ),
                                )
                            },
                        }
                    },
                }
            }
        },
    }
}

/// Emits the record of one indexed administrative relation, per
/// [`spec_relation_record`].
pub fn relation_record(planet: &Planet, entry: &RelationPolygons) -> (r: Result<
    Option<Record>,
    ModelError,
>)
    requires
        planet.wf(),
        entry.wf(),
    ensures
        match r {
            Ok(Some(rec)) => spec_relation_record(*planet, *entry) == Ok::<
                Option<RecordView>,
                ModelError,
            >(Some(rec@)),
            Ok(None) => spec_relation_record(*planet, *entry) == Ok::<
                Option<RecordView>,
                ModelError,
            >(None),
            Err(e) => spec_relation_record(*planet, *entry) == Err::<
                Option<RecordView>,
                ModelError,
            >(e),
        },
{
    let rel = match assoc_get_ref(&planet.relations, entry.rel_id) {
        Some(rel) => rel,
        None => {
            return Ok(None);
        },
    };
    proof {
        lemma_assoc_get_some_index(planet.relations@, entry.rel_id);
        let k = choose|k: int|
            0 <= k < planet.relations@.len() && planet.relations@[k] == (
            entry.rel_id,
            assoc_get(planet.relations@, entry.rel_id)->Some_0,
            );
        assert(planet.relations@[k].1.wf());
    }
    let name = match rel.tags.get("name") {
        Some(s) => s.clone(),
        None => {
            return Ok(None);
        },
    };
    let lvl = match rel.tags.get("admin_level") {
        Some(lvl_str) => match parse_u8_str(lvl_str.as_str()) {
            Some(v) => v,
            None => {
                return Err(ModelError::InvalidAdminLevel);
            },
        },
        None => {
            return Ok(None);
        },
    };
    let centre = match find_admin_centre(&rel.members) {
        Some(cid) => match planet.obj_coords(cid) {
            Some(c) => Some(c),
            None => rings_centroid(&entry.rings),
        },
        None => rings_centroid(&entry.rings),
    };
    let c = match centre {
        Some(c) => c,
        None => {
            return Ok(None);
        },
    };
    if lvl >= BUILDING_LEVEL {
        return Err(ModelError::AdminLevelViolation);
    }
    let rec = Record {
        name,
        alt_name: None,
        operator: None,
        osm_id: OsmId::Relation(entry.rel_id),
        location: Vec::new(),
        decimicro_lat: c.lat,
        decimicro_lon: c.lon,
        admin_level: lvl,
    };
    proof {
        assert(rec.location@.map_values(|s: String| s@) =~= Seq::<Seq<char>>::empty());
    }
    Ok(Some(rec))
}

} // verus!
