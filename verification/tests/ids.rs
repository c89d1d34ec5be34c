use osm::{round_div_away, OsmId, ParseOsmIdError};

#[test]
fn osm_id_way_42_serializes() {
    assert_eq!(OsmId::Way(42).to_osm_string(), "W42");
    assert_eq!(OsmId::Node(123456789).to_osm_string(), "N123456789");
    assert_eq!(OsmId::Relation(7).to_osm_string(), "R7");
}

#[test]
fn osm_id_round_trip_parse() {
    assert_eq!(OsmId::parse_osm_string("W42"), Ok(OsmId::Way(42)));
    assert_eq!(OsmId::parse_osm_string("N123456789"), Ok(OsmId::Node(123456789)));
    assert_eq!(OsmId::parse_osm_string("R0"), Ok(OsmId::Relation(0)));
}

#[test]
fn invalid_discriminant_x42() {
    assert_eq!(
        OsmId::parse_osm_string("X42"),
        Err(ParseOsmIdError::InvalidDiscriminant)
    );
}

#[test]
fn invalid_inner_id_wabc() {
    assert_eq!(
        OsmId::parse_osm_string("Wabc"),
        Err(ParseOsmIdError::InvalidInnerId)
    );
}

#[test]
fn empty_string_fails_discriminant() {
    assert_eq!(
        OsmId::parse_osm_string(""),
        Err(ParseOsmIdError::InvalidDiscriminant)
    );
}

#[test]
fn missing_digits_fail_inner() {
    assert_eq!(OsmId::parse_osm_string("W"), Err(ParseOsmIdError::InvalidInnerId));
    assert_eq!(OsmId::parse_osm_string("N-"), Err(ParseOsmIdError::InvalidInnerId));
}

#[test]
fn negative_id_round_trip() {
    let id = OsmId::Node(-5);
    assert_eq!(id.to_osm_string(), "N-5");
    assert_eq!(OsmId::parse_osm_string("N-5"), Ok(id));
}

#[test]
fn min_i64_round_trip() {
    let id = OsmId::Way(i64::MIN);
    let s = id.to_osm_string();
    assert_eq!(s, "W-9223372036854775808");
    assert_eq!(OsmId::parse_osm_string(&s), Ok(id));
    let max = OsmId::Relation(i64::MAX);
    assert_eq!(OsmId::parse_osm_string(&max.to_osm_string()), Ok(max));
}

#[test]
fn plus_sign_accepted() {
    assert_eq!(OsmId::parse_osm_string("N+7"), Ok(OsmId::Node(7)));
}

#[test]
fn leading_zeros_parse() {
    assert_eq!(OsmId::parse_osm_string("W0042"), Ok(OsmId::Way(42)));
    assert_eq!(
        OsmId::parse_osm_string("W00000000000000000000000042"),
        Ok(OsmId::Way(42))
    );
}

#[test]
fn overflow_fails_inner() {
    assert_eq!(
        OsmId::parse_osm_string("W9223372036854775808"),
        Err(ParseOsmIdError::InvalidInnerId)
    );
    assert_eq!(
        OsmId::parse_osm_string("W99999999999999999999999999"),
        Err(ParseOsmIdError::InvalidInnerId)
    );
    assert_eq!(
        OsmId::parse_osm_string("N-9223372036854775809"),
        Err(ParseOsmIdError::InvalidInnerId)
    );
}

#[test]
fn non_ascii_discriminant_fails() {
    assert_eq!(
        OsmId::parse_osm_string("Ê42"),
        Err(ParseOsmIdError::InvalidDiscriminant)
    );
}

#[test]
fn as_i64_strips_the_kind() {
    assert_eq!(OsmId::Node(9).as_i64(), 9);
    assert_eq!(OsmId::Way(-3).as_i64(), -3);
    assert_eq!(OsmId::Relation(0).as_i64(), 0);
}

#[test]
fn rounding_seven_decimals() {
    // 59.123456789 degrees, held as nanodegrees, rounds to 59.1234568
    // (591234568 decimicro degrees).
    assert_eq!(round_div_away(59123456789, 100), 591234568);
}

#[test]
fn rounding_negative_tiny_to_zero() {
    // -0.00000004 degrees is -40 nanodegrees: rounds to 0, not below.
    assert_eq!(round_div_away(-40, 100), 0);
}

#[test]
fn rounding_halves_away_from_zero() {
    assert_eq!(round_div_away(1, 2), 1);
    assert_eq!(round_div_away(-1, 2), -1);
    assert_eq!(round_div_away(3, 2), 2);
    assert_eq!(round_div_away(-3, 2), -2);
    assert_eq!(round_div_away(2, 2), 1);
    assert_eq!(round_div_away(7, 3), 2);
    assert_eq!(round_div_away(-7, 3), -2);
}
