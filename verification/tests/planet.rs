use osm::{
    assemble_rings, Coord, Member, Meta, ModelError, Node, OsmId, OsmObj, Planet, Relation, Tags,
    Way,
};

fn tags_of(kvs: &[(&str, &str)]) -> Tags {
    let mut t = Tags::new();
    for (k, v) in kvs {
        t.insert(k.to_string(), v.to_string());
    }
    t
}

fn bare_node(lat: i32, lon: i32) -> Node {
    Node { meta: Meta { name: None }, decimicro_lat: lat, decimicro_lon: lon }
}

fn bare_way(nodes: Vec<i64>) -> Way {
    Way { meta: Meta { name: None }, nodes }
}

fn member(id: OsmId, role: &str) -> Member {
    Member { id, role: role.to_string() }
}

#[test]
fn idempotent_node_insert() {
    let mut planet = Planet::new();
    planet.insert(OsmObj::Node(5, bare_node(10, 20)));
    planet.insert(OsmObj::Node(5, bare_node(30, 40)));
    assert_eq!(planet.nodes.len(), 1);
    assert_eq!(planet.node_coords(5), Some(Coord { lat: 30, lon: 40 }));
}

#[test]
fn idempotent_relation_insert() {
    let mut planet = Planet::new();
    planet.insert(OsmObj::Relation(
        9,
        Relation { tags: tags_of(&[("name", "old")]), members: Vec::new() },
    ));
    planet.insert(OsmObj::Relation(
        9,
        Relation { tags: tags_of(&[("name", "new")]), members: Vec::new() },
    ));
    assert_eq!(planet.relations.len(), 1);
    assert_eq!(planet.relations[0].1.tags.get("name").map(String::as_str), Some("new"));
}

#[test]
fn node_coords_lookup() {
    let mut planet = Planet::new();
    planet.insert(OsmObj::Node(1, bare_node(591234568, -1801234567)));
    assert_eq!(planet.node_coords(1), Some(Coord { lat: 591234568, lon: -1801234567 }));
    assert_eq!(planet.node_coords(2), None);
}

#[test]
fn way_centroid_is_node_mean() {
    let mut planet = Planet::new();
    planet.insert(OsmObj::Node(1, bare_node(10, 20)));
    planet.insert(OsmObj::Node(2, bare_node(30, 40)));
    planet.insert(OsmObj::Way(7, bare_way(vec![1, 2])));
    assert_eq!(planet.obj_coords(OsmId::Way(7)), Some(Coord { lat: 20, lon: 30 }));
    assert_eq!(planet.obj_coords(OsmId::Node(1)), Some(Coord { lat: 10, lon: 20 }));
}

#[test]
fn way_centroid_rounds_half_away() {
    let mut planet = Planet::new();
    planet.insert(OsmObj::Node(1, bare_node(0, 0)));
    planet.insert(OsmObj::Node(2, bare_node(1, -1)));
    planet.insert(OsmObj::Way(7, bare_way(vec![1, 2])));
    // Means of 0.5 and -0.5 round away from zero.
    assert_eq!(planet.obj_coords(OsmId::Way(7)), Some(Coord { lat: 1, lon: -1 }));
}

#[test]
fn way_centroid_skips_missing_nodes() {
    let mut planet = Planet::new();
    planet.insert(OsmObj::Node(1, bare_node(100, 200)));
    planet.insert(OsmObj::Way(7, bare_way(vec![1, 99])));
    assert_eq!(planet.obj_coords(OsmId::Way(7)), Some(Coord { lat: 100, lon: 200 }));
}

#[test]
fn way_with_no_resolvable_node_has_no_coords() {
    let mut planet = Planet::new();
    planet.insert(OsmObj::Way(7, bare_way(vec![98, 99])));
    assert_eq!(planet.obj_coords(OsmId::Way(7)), None);
    assert_eq!(planet.obj_coords(OsmId::Way(8)), None);
}

#[test]
fn relation_has_no_direct_coords() {
    let mut planet = Planet::new();
    planet.insert(OsmObj::Relation(
        3,
        Relation { tags: Tags::new(), members: Vec::new() },
    ));
    assert_eq!(planet.obj_coords(OsmId::Relation(3)), None);
}

#[test]
fn meta_requires_amenity_or_building() {
    let named = Meta::from_tags(&tags_of(&[("amenity", "school"), ("name", "High")]));
    assert_eq!(named.name.as_deref(), Some("High"));
    let built = Meta::from_tags(&tags_of(&[("building", "yes"), ("name", "Barn")]));
    assert_eq!(built.name.as_deref(), Some("Barn"));
    let plain = Meta::from_tags(&tags_of(&[("name", "Nameless kind")]));
    assert_eq!(plain.name, None);
    let unnamed = Meta::from_tags(&tags_of(&[("amenity", "bench")]));
    assert_eq!(unnamed.name, None);
}

#[test]
fn tags_insert_overwrites() {
    let mut t = Tags::new();
    t.insert("k".to_string(), "a".to_string());
    t.insert("k".to_string(), "b".to_string());
    assert_eq!(t.get("k").map(String::as_str), Some("b"));
    assert_eq!(t.pairs.len(), 1);
    assert!(t.contains_kv("k", "b"));
    assert!(!t.contains_kv("k", "a"));
    assert!(!t.contains_key("other"));
}

#[test]
fn ring_closure_single_cycle() {
    let frags = vec![vec![3, 4], vec![1, 2], vec![4, 1], vec![2, 3]];
    let rings = assemble_rings(frags).expect("cycle must close");
    assert_eq!(rings, vec![vec![2, 3, 4, 1, 2]]);
}

#[test]
fn ring_closure_with_reversed_fragment() {
    let frags = vec![vec![4, 3], vec![1, 2], vec![4, 1], vec![2, 3]];
    let rings = assemble_rings(frags).expect("cycle must close");
    assert_eq!(rings, vec![vec![2, 3, 4, 1, 2]]);
}

#[test]
fn ring_failure_dangling_fragment() {
    assert_eq!(assemble_rings(vec![vec![1, 2], vec![2, 3]]), None);
    assert_eq!(
        assemble_rings(vec![vec![1, 2], vec![2, 3], vec![3, 1], vec![5, 6]]),
        None
    );
}

#[test]
fn multipart_two_rings() {
    let frags = vec![
        vec![1, 2],
        vec![2, 3],
        vec![3, 1],
        vec![10, 11],
        vec![11, 12],
        vec![12, 10],
    ];
    let rings = assemble_rings(frags).expect("both cycles must close");
    assert_eq!(rings.len(), 2);
    for ring in &rings {
        assert!(ring.len() >= 3);
        assert_eq!(ring.first(), ring.last());
    }
    assert_eq!(rings, vec![vec![12, 10, 11, 12], vec![3, 1, 2, 3]]);
}

#[test]
fn ring_closure_with_interior_nodes() {
    let frags = vec![vec![1, 7, 8, 2], vec![2, 9, 3], vec![3, 1]];
    let rings = assemble_rings(frags).expect("cycle must close");
    assert_eq!(rings, vec![vec![3, 1, 7, 8, 2, 9, 3]]);
}

#[test]
fn ring_closure_all_reversed_splices() {
    // Every continuation matches at its far end, so each fragment is
    // spliced reversed; the shared node 2 makes a figure-eight, which is
    // still one closed ring.
    let frags = vec![vec![1, 2], vec![3, 1], vec![2, 3], vec![2, 5], vec![5, 2]];
    let rings = assemble_rings(frags).expect("figure-eight closes");
    assert_eq!(rings, vec![vec![5, 2, 1, 3, 2, 5]]);
}

#[test]
fn id_spaces_are_disjoint() {
    let mut planet = Planet::new();
    planet.insert(OsmObj::Node(5, bare_node(1, 2)));
    planet.insert(OsmObj::Way(5, bare_way(vec![5])));
    planet.insert(OsmObj::Relation(
        5,
        Relation { tags: Tags::new(), members: Vec::new() },
    ));
    assert_eq!(planet.nodes.len(), 1);
    assert_eq!(planet.ways.len(), 1);
    assert_eq!(planet.relations.len(), 1);
    assert_eq!(planet.obj_coords(OsmId::Node(5)), Some(Coord { lat: 1, lon: 2 }));
    assert_eq!(planet.obj_coords(OsmId::Way(5)), Some(Coord { lat: 1, lon: 2 }));
}

#[test]
fn no_fragments_no_rings() {
    assert_eq!(assemble_rings(Vec::new()), None);
}

#[test]
fn short_fragment_fails_relation() {
    assert_eq!(assemble_rings(vec![vec![1, 2], vec![3]]), None);
}

fn square_planet() -> Planet {
    let mut planet = Planet::new();
    planet.insert(OsmObj::Node(1, bare_node(0, 0)));
    planet.insert(OsmObj::Node(2, bare_node(0, 1000)));
    planet.insert(OsmObj::Node(3, bare_node(1000, 1000)));
    planet.insert(OsmObj::Node(4, bare_node(1000, 0)));
    planet.insert(OsmObj::Way(10, bare_way(vec![1, 2])));
    planet.insert(OsmObj::Way(11, bare_way(vec![2, 3])));
    planet.insert(OsmObj::Way(12, bare_way(vec![3, 4])));
    planet.insert(OsmObj::Way(13, bare_way(vec![4, 1])));
    planet
}

fn outer_members() -> Vec<Member> {
    vec![
        member(OsmId::Way(10), "outer"),
        member(OsmId::Way(11), "outer"),
        member(OsmId::Way(12), "outer"),
        member(OsmId::Way(13), "outer"),
    ]
}

#[test]
fn relation_rings_assembles_square() {
    let mut planet = square_planet();
    planet.insert(OsmObj::Relation(
        100,
        Relation { tags: Tags::new(), members: outer_members() },
    ));
    let rings = planet.relation_rings(100).unwrap().expect("square closes");
    assert_eq!(rings, vec![vec![4, 1, 2, 3, 4]]);
}

#[test]
fn relation_rings_missing_relation_is_none() {
    let planet = square_planet();
    assert_eq!(planet.relation_rings(100), Ok(None));
}

#[test]
fn relation_rings_ignores_inner_empty_and_nodes() {
    let mut planet = square_planet();
    planet.insert(OsmObj::Node(5, bare_node(7, 7)));
    planet.insert(OsmObj::Way(14, bare_way(vec![1, 3])));
    planet.insert(OsmObj::Way(15, bare_way(vec![2, 4])));
    let mut members = outer_members();
    members.push(member(OsmId::Way(14), "inner"));
    members.push(member(OsmId::Way(15), ""));
    members.push(member(OsmId::Node(5), "admin_centre"));
    members.push(member(OsmId::Relation(55), "subarea"));
    planet.insert(OsmObj::Relation(100, Relation { tags: Tags::new(), members }));
    let rings = planet.relation_rings(100).unwrap().expect("square closes");
    assert_eq!(rings, vec![vec![4, 1, 2, 3, 4]]);
}

#[test]
fn relation_rings_skips_missing_way_member() {
    let mut planet = square_planet();
    let mut members = outer_members();
    members.push(member(OsmId::Way(999), "outer"));
    planet.insert(OsmObj::Relation(100, Relation { tags: Tags::new(), members }));
    let rings = planet.relation_rings(100).unwrap().expect("square closes");
    assert_eq!(rings, vec![vec![4, 1, 2, 3, 4]]);
}

#[test]
fn unknown_role_is_fatal() {
    let mut planet = square_planet();
    let mut members = outer_members();
    members.push(member(OsmId::Way(10), "weird"));
    planet.insert(OsmObj::Relation(100, Relation { tags: Tags::new(), members }));
    assert_eq!(planet.relation_rings(100), Err(ModelError::UnknownRole));
}

#[test]
fn unknown_role_on_node_is_fatal() {
    let mut planet = square_planet();
    planet.insert(OsmObj::Node(5, bare_node(7, 7)));
    let mut members = outer_members();
    members.push(member(OsmId::Node(5), "fancy"));
    planet.insert(OsmObj::Relation(100, Relation { tags: Tags::new(), members }));
    assert_eq!(planet.relation_rings(100), Err(ModelError::UnknownRole));
}

#[test]
fn wrong_kind_role_on_way_is_fatal() {
    let mut planet = square_planet();
    let mut members = outer_members();
    members.push(member(OsmId::Way(10), "subarea"));
    planet.insert(OsmObj::Relation(100, Relation { tags: Tags::new(), members }));
    assert_eq!(planet.relation_rings(100), Err(ModelError::WrongKindRole));
}

#[test]
fn wrong_kind_role_on_relation_member_is_fatal() {
    let mut planet = square_planet();
    let mut members = outer_members();
    members.push(member(OsmId::Relation(55), "outer"));
    planet.insert(OsmObj::Relation(100, Relation { tags: Tags::new(), members }));
    assert_eq!(planet.relation_rings(100), Err(ModelError::WrongKindRole));
}

#[test]
fn no_outer_members_no_boundary() {
    let mut planet = square_planet();
    planet.insert(OsmObj::Relation(
        100,
        Relation {
            tags: Tags::new(),
            members: vec![member(OsmId::Way(10), "inner")],
        },
    ));
    assert_eq!(planet.relation_rings(100), Ok(None));
}

#[test]
fn short_way_fails_relation_rings() {
    let mut planet = square_planet();
    planet.insert(OsmObj::Way(14, bare_way(vec![1])));
    let mut members = outer_members();
    members.push(member(OsmId::Way(14), "outer"));
    planet.insert(OsmObj::Relation(100, Relation { tags: Tags::new(), members }));
    assert_eq!(planet.relation_rings(100), Ok(None));
}
