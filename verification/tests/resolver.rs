use osm::{
    location_chain, relation_record, resolve_all, resolve_feature, Coord, Member, Meta,
    ModelError, Node, OsmId, OsmObj, Planet, PolygonIndex, Relation, Tags, Way, BUILDING_LEVEL,
};

fn tags_of(kvs: &[(&str, &str)]) -> Tags {
    let mut t = Tags::new();
    for (k, v) in kvs {
        t.insert(k.to_string(), v.to_string());
    }
    t
}

fn bare_node(lat: i32, lon: i32) -> Node {
    Node { meta: Meta { name: None }, decimicro_lat: lat, decimicro_lon: lon }
}

fn named_node(name: &str, lat: i32, lon: i32) -> Node {
    Node {
        meta: Meta { name: Some(name.to_string()) },
        decimicro_lat: lat,
        decimicro_lon: lon,
    }
}

fn member(id: OsmId, role: &str) -> Member {
    Member { id, role: role.to_string() }
}

/// Inserts a square boundary of four ways around (5000, 5000) with the
/// given half-extent, tagged as an administrative relation.
fn add_square(
    planet: &mut Planet,
    node_base: i64,
    way_base: i64,
    rel_id: i64,
    half: i32,
    name: &str,
    level: &str,
) {
    let lo_lat = 5000 - half;
    let hi_lat = 5000 + half;
    let lo_lon = 5000 - half;
    let hi_lon = 5000 + half;
    planet.insert(OsmObj::Node(node_base, bare_node(lo_lat, lo_lon)));
    planet.insert(OsmObj::Node(node_base + 1, bare_node(lo_lat, hi_lon)));
    planet.insert(OsmObj::Node(node_base + 2, bare_node(hi_lat, hi_lon)));
    planet.insert(OsmObj::Node(node_base + 3, bare_node(hi_lat, lo_lon)));
    let corners = [node_base, node_base + 1, node_base + 2, node_base + 3];
    for k in 0..4usize {
        let a = corners[k];
        let b = corners[(k + 1) % 4];
        planet.insert(OsmObj::Way(
            way_base + k as i64,
            Way { meta: Meta { name: None }, nodes: vec![a, b] },
        ));
    }
    let members = (0..4)
        .map(|k| member(OsmId::Way(way_base + k), "outer"))
        .collect::<Vec<_>>();
    planet.insert(OsmObj::Relation(
        rel_id,
        Relation {
            tags: tags_of(&[
                ("boundary", "administrative"),
                ("name", name),
                ("admin_level", level),
            ]),
            members,
        },
    ));
}

#[test]
fn building_level_is_reserved_maximum() {
    assert_eq!(BUILDING_LEVEL, 255);
}

#[test]
fn location_chain_orders_most_specific_first() {
    let pairs = vec![
        ("Mid".to_string(), 4u8),
        ("Inner".to_string(), 8u8),
        ("Outer".to_string(), 2u8),
    ];
    assert_eq!(
        location_chain(&pairs),
        vec!["Inner".to_string(), "Mid".to_string(), "Outer".to_string()]
    );
}

#[test]
fn location_chain_is_order_insensitive_for_distinct_levels() {
    let a = vec![
        ("Inner".to_string(), 8u8),
        ("Mid".to_string(), 4u8),
        ("Outer".to_string(), 2u8),
    ];
    let b = vec![
        ("Outer".to_string(), 2u8),
        ("Inner".to_string(), 8u8),
        ("Mid".to_string(), 4u8),
    ];
    let expected = vec!["Inner".to_string(), "Mid".to_string(), "Outer".to_string()];
    assert_eq!(location_chain(&a), expected);
    assert_eq!(location_chain(&b), expected);
}

#[test]
fn location_chain_keeps_scan_order_on_ties() {
    let pairs = vec![
        ("x".to_string(), 4u8),
        ("top".to_string(), 9u8),
        ("y".to_string(), 4u8),
    ];
    assert_eq!(
        location_chain(&pairs),
        vec!["top".to_string(), "x".to_string(), "y".to_string()]
    );
}

#[test]
fn containment_scan_inside_and_outside() {
    let mut planet = Planet::new();
    add_square(&mut planet, 1, 10, 100, 1000, "Area", "6");
    let index = PolygonIndex::build(&planet).unwrap();
    assert_eq!(index.entries.len(), 1);
    assert_eq!(
        index.containing(&planet, Coord { lat: 5000, lon: 5000 }),
        vec![100]
    );
    assert_eq!(
        index.containing(&planet, Coord { lat: 8000, lon: 5000 }),
        Vec::<i64>::new()
    );
    // geo's containment is boundary-exclusive.
    assert_eq!(
        index.containing(&planet, Coord { lat: 6000, lon: 5000 }),
        Vec::<i64>::new()
    );
}

#[test]
fn location_ordering_from_nested_polygons() {
    let mut planet = Planet::new();
    // Inserted with scrambled levels: the chain must still come out
    // sorted from the most specific level down.
    add_square(&mut planet, 1, 10, 100, 2000, "Mid", "4");
    add_square(&mut planet, 21, 30, 101, 1000, "Inner", "8");
    add_square(&mut planet, 41, 50, 102, 3000, "Outer", "2");
    planet.insert(OsmObj::Node(999, named_node("Spot", 5000, 5000)));
    let index = PolygonIndex::build(&planet).unwrap();
    let rec = resolve_feature(&planet, &index, OsmId::Node(999))
        .unwrap()
        .expect("named node resolves");
    assert_eq!(
        rec.location,
        vec!["Inner".to_string(), "Mid".to_string(), "Outer".to_string()]
    );
    assert_eq!(rec.admin_level, BUILDING_LEVEL);
}

#[test]
fn end_to_end_springfield() {
    let mut planet = Planet::new();
    add_square(&mut planet, 1, 10, 100, 1000, "Springfield", "6");
    planet.insert(OsmObj::Node(999, named_node("Main Post Office", 5000, 5000)));
    let index = PolygonIndex::build(&planet).unwrap();
    let records = resolve_all(&planet, &index).unwrap();
    assert_eq!(records.len(), 1);
    let rec = &records[0];
    assert_eq!(rec.name, "Main Post Office");
    assert_eq!(rec.osm_id, OsmId::Node(999));
    assert_eq!(rec.location, vec!["Springfield".to_string()]);
    assert_eq!(rec.admin_level, BUILDING_LEVEL);
    assert_eq!(rec.decimicro_lat, 5000);
    assert_eq!(rec.decimicro_lon, 5000);
    assert_eq!(rec.alt_name, None);
    assert_eq!(rec.operator, None);
}

#[test]
fn named_way_resolves_at_its_node_mean() {
    let mut planet = Planet::new();
    add_square(&mut planet, 1, 10, 100, 1000, "Town", "6");
    planet.insert(OsmObj::Node(200, bare_node(4600, 4800)));
    planet.insert(OsmObj::Node(201, bare_node(5400, 5200)));
    planet.insert(OsmObj::Way(
        300,
        Way {
            meta: Meta { name: Some("Big Barn".to_string()) },
            nodes: vec![200, 201],
        },
    ));
    let index = PolygonIndex::build(&planet).unwrap();
    let rec = resolve_feature(&planet, &index, OsmId::Way(300))
        .unwrap()
        .expect("named way resolves");
    assert_eq!(rec.name, "Big Barn");
    assert_eq!(rec.decimicro_lat, 5000);
    assert_eq!(rec.decimicro_lon, 5000);
    assert_eq!(rec.location, vec!["Town".to_string()]);
}

#[test]
fn unnamed_or_unresolvable_features_are_skipped() {
    let mut planet = Planet::new();
    planet.insert(OsmObj::Node(1, bare_node(0, 0)));
    planet.insert(OsmObj::Way(
        2,
        Way {
            meta: Meta { name: Some("Ghost".to_string()) },
            nodes: vec![77, 78],
        },
    ));
    let index = PolygonIndex::build(&planet).unwrap();
    assert!(matches!(resolve_feature(&planet, &index, OsmId::Node(1)), Ok(None)));
    assert!(matches!(resolve_feature(&planet, &index, OsmId::Way(2)), Ok(None)));
    assert!(resolve_all(&planet, &index).unwrap().is_empty());
}

#[test]
fn invalid_admin_level_in_chain_is_fatal() {
    let mut planet = Planet::new();
    add_square(&mut planet, 1, 10, 100, 1000, "Bad", "abc");
    planet.insert(OsmObj::Node(999, named_node("Spot", 5000, 5000)));
    let index = PolygonIndex::build(&planet).unwrap();
    assert!(matches!(
        resolve_feature(&planet, &index, OsmId::Node(999)),
        Err(ModelError::InvalidAdminLevel)
    ));
}

#[test]
fn chain_skips_relations_missing_tags() {
    let mut planet = Planet::new();
    add_square(&mut planet, 1, 10, 100, 1000, "Named", "6");
    // A second square with no name tag: contained in, but uninformative.
    {
        let planet = &mut planet;
        planet.insert(OsmObj::Node(21, bare_node(3000, 3000)));
        planet.insert(OsmObj::Node(22, bare_node(3000, 7000)));
        planet.insert(OsmObj::Node(23, bare_node(7000, 7000)));
        planet.insert(OsmObj::Node(24, bare_node(7000, 3000)));
        planet.insert(OsmObj::Way(30, Way { meta: Meta { name: None }, nodes: vec![21, 22] }));
        planet.insert(OsmObj::Way(31, Way { meta: Meta { name: None }, nodes: vec![22, 23] }));
        planet.insert(OsmObj::Way(32, Way { meta: Meta { name: None }, nodes: vec![23, 24] }));
        planet.insert(OsmObj::Way(33, Way { meta: Meta { name: None }, nodes: vec![24, 21] }));
        planet.insert(OsmObj::Relation(
            101,
            Relation {
                tags: tags_of(&[("boundary", "administrative")]),
                members: vec![
                    member(OsmId::Way(30), "outer"),
                    member(OsmId::Way(31), "outer"),
                    member(OsmId::Way(32), "outer"),
                    member(OsmId::Way(33), "outer"),
                ],
            },
        ));
        planet.insert(OsmObj::Node(999, named_node("Spot", 5000, 5000)));
    }
    let index = PolygonIndex::build(&planet).unwrap();
    assert_eq!(index.entries.len(), 2);
    let rec = resolve_feature(&planet, &index, OsmId::Node(999))
        .unwrap()
        .expect("named node resolves");
    assert_eq!(rec.location, vec!["Named".to_string()]);
}

#[test]
fn relation_record_uses_admin_centre() {
    let mut planet = Planet::new();
    add_square(&mut planet, 1, 10, 100, 1000, "Town", "6");
    planet.insert(OsmObj::Node(50, bare_node(4250, 4250)));
    // Re-insert the relation with an admin_centre member appended.
    let rel = {
        let mut members = (0..4).map(|k| member(OsmId::Way(10 + k), "outer")).collect::<Vec<_>>();
        members.push(member(OsmId::Node(50), "admin_centre"));
        Relation {
            tags: tags_of(&[
                ("boundary", "administrative"),
                ("name", "Town"),
                ("admin_level", "6"),
            ]),
            members,
        }
    };
    planet.insert(OsmObj::Relation(100, rel));
    let index = PolygonIndex::build(&planet).unwrap();
    let rec = relation_record(&planet, &index.entries[0])
        .unwrap()
        .expect("admin relation emits");
    assert_eq!(rec.name, "Town");
    assert_eq!(rec.osm_id, OsmId::Relation(100));
    assert_eq!(rec.admin_level, 6);
    assert_eq!(rec.location, Vec::<String>::new());
    assert_eq!(rec.decimicro_lat, 4250);
    assert_eq!(rec.decimicro_lon, 4250);
}

#[test]
fn relation_record_falls_back_to_ring_centroid() {
    let mut planet = Planet::new();
    add_square(&mut planet, 1, 10, 100, 1000, "Town", "6");
    let index = PolygonIndex::build(&planet).unwrap();
    let rec = relation_record(&planet, &index.entries[0])
        .unwrap()
        .expect("admin relation emits");
    // The assembled ring repeats its starting corner, so the vertex mean
    // leans toward it: corners (6000,4000) (4000,4000) (4000,6000)
    // (6000,6000) with (6000,4000) twice.
    assert_eq!(rec.decimicro_lat, 5200);
    assert_eq!(rec.decimicro_lon, 4800);
    assert_eq!(rec.admin_level, 6);
}

#[test]
fn relation_record_accepts_plus_signed_level() {
    let mut planet = Planet::new();
    add_square(&mut planet, 1, 10, 100, 1000, "Town", "+6");
    let index = PolygonIndex::build(&planet).unwrap();
    let rec = relation_record(&planet, &index.entries[0]).unwrap().unwrap();
    assert_eq!(rec.admin_level, 6);
}

#[test]
fn relation_record_level_at_sentinel_is_fatal() {
    let mut planet = Planet::new();
    add_square(&mut planet, 1, 10, 100, 1000, "Town", "255");
    let index = PolygonIndex::build(&planet).unwrap();
    assert!(matches!(
        relation_record(&planet, &index.entries[0]),
        Err(ModelError::AdminLevelViolation)
    ));
}

#[test]
fn relation_record_invalid_level_is_fatal() {
    let mut planet = Planet::new();
    add_square(&mut planet, 1, 10, 100, 1000, "Town", "six");
    let index = PolygonIndex::build(&planet).unwrap();
    assert!(matches!(
        relation_record(&planet, &index.entries[0]),
        Err(ModelError::InvalidAdminLevel)
    ));
}

#[test]
fn relation_record_missing_tags_skipped() {
    let mut planet = Planet::new();
    add_square(&mut planet, 1, 10, 100, 1000, "Town", "6");
    let rel = Relation {
        tags: tags_of(&[("boundary", "administrative"), ("admin_level", "6")]),
        members: (0..4).map(|k| member(OsmId::Way(10 + k), "outer")).collect(),
    };
    planet.insert(OsmObj::Relation(100, rel));
    let index = PolygonIndex::build(&planet).unwrap();
    assert!(matches!(relation_record(&planet, &index.entries[0]), Ok(None)));
}

#[test]
fn index_build_surfaces_role_violation() {
    let mut planet = Planet::new();
    add_square(&mut planet, 1, 10, 100, 1000, "Town", "6");
    let rel = Relation {
        tags: tags_of(&[("boundary", "administrative"), ("name", "Bad")]),
        members: vec![member(OsmId::Way(10), "mystery")],
    };
    planet.insert(OsmObj::Relation(101, rel));
    assert!(matches!(
        PolygonIndex::build(&planet),
        Err(ModelError::UnknownRole)
    ));
}

#[test]
fn index_skips_unclosed_boundaries() {
    let mut planet = Planet::new();
    add_square(&mut planet, 1, 10, 100, 1000, "Town", "6");
    planet.insert(OsmObj::Node(60, bare_node(0, 0)));
    planet.insert(OsmObj::Node(61, bare_node(9000, 9000)));
    planet.insert(OsmObj::Way(70, Way { meta: Meta { name: None }, nodes: vec![60, 61] }));
    planet.insert(OsmObj::Relation(
        101,
        Relation {
            tags: tags_of(&[("boundary", "administrative"), ("name", "Open")]),
            members: vec![member(OsmId::Way(70), "outer")],
        },
    ));
    let index = PolygonIndex::build(&planet).unwrap();
    assert_eq!(index.entries.len(), 1);
    assert_eq!(index.entries[0].rel_id, 100);
}
