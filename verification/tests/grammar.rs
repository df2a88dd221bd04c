use ducktracker::coords::BoxCoords;
use ducktracker::numbers::{parse_duration_chars, parse_usize_chars};
use ducktracker::shareid::ShareIdError;
use ducktracker::tags::{Tag, TagError, TagVisibility, TagsAux};

fn chars(s: &str) -> Vec<char> {
    s.chars().collect()
}

#[test]
fn tag_trims_and_validates() {
    let t = Tag::new("  alpha ".to_string()).unwrap();
    assert_eq!(t.0, "alpha");
    assert_eq!(Tag::new("   ".to_string()).unwrap_err(), TagError::Empty);
    assert_eq!(
        Tag::new("a,b".to_string()).unwrap_err(),
        TagError::InvalidChar(',')
    );
    assert!(Tag::new("under_score-ok9".to_string()).is_ok());
}

#[test]
fn numbers_parse() {
    assert_eq!(parse_usize_chars(&chars("200")), Ok(200));
    assert_eq!(parse_usize_chars(&chars("0")), Ok(0));
    assert!(parse_usize_chars(&chars("")).is_err());
    assert!(parse_usize_chars(&chars("2x")).is_err());

    assert_eq!(parse_duration_chars(&chars("10s")), Ok(10_000_000));
    assert_eq!(parse_duration_chars(&chars("2h30m")), Ok(9_000_000_000));
    assert_eq!(parse_duration_chars(&chars("5ms")), Ok(5_000));
    assert_eq!(parse_duration_chars(&chars("1d")), Ok(86_400_000_000));
    assert!(parse_duration_chars(&chars("")).is_err());
    assert!(parse_duration_chars(&chars("10")).is_err());
    assert!(parse_duration_chars(&chars("s10")).is_err());
}

#[test]
fn share_id_parses_tags_and_options() {
    let lid = Some("pub:alpha,priv:beta,points:3,expire:2s,nostop,name:Ann".to_string());
    let (tags, opts) = TagsAux::parse_share_id(&lid).unwrap();
    assert_eq!(tags.len(), 2);
    let alpha = ducktracker::tags::TagAux::new("alpha", TagVisibility::Public).unwrap();
    let beta = ducktracker::tags::TagAux::new("beta", TagVisibility::Private).unwrap();
    assert!(tags.contains(&alpha));
    assert!(tags.contains(&beta));
    assert_eq!(opts.max_points, Some(3));
    assert_eq!(opts.max_point_age_us, Some(2_000_000));
    assert!(opts.no_stop);
    assert_eq!(opts.name.as_deref(), Some("Ann"));
    let publics = tags.public_tags();
    assert_eq!(publics.len(), 1);
    assert!(publics.contains(&Tag("alpha".to_string())));
}

#[test]
fn share_id_rejects_bad_fields() {
    let bad_kw = Some("frobnicate:x".to_string());
    assert_eq!(
        TagsAux::parse_share_id(&bad_kw).unwrap_err(),
        ShareIdError::Keyword
    );
    let bad_points = Some("points:abc".to_string());
    assert_eq!(
        TagsAux::parse_share_id(&bad_points).unwrap_err(),
        ShareIdError::Points
    );
    let bad_expire = Some("expire:soon".to_string());
    assert_eq!(
        TagsAux::parse_share_id(&bad_expire).unwrap_err(),
        ShareIdError::Expire
    );
    let bad_log = Some("log:everything".to_string());
    assert_eq!(
        TagsAux::parse_share_id(&bad_log).unwrap_err(),
        ShareIdError::LogValue
    );
    let empty_fields = Some(",,".to_string());
    assert!(TagsAux::parse_share_id(&empty_fields).is_ok());
}

#[test]
fn share_id_absent_makes_one_private_tag() {
    let (tags, opts) = TagsAux::parse_share_id(&None).unwrap();
    assert_eq!(tags.len(), 1);
    assert_eq!(tags.public_tags().len(), 0);
    assert_eq!(opts.max_points, None);
    assert!(!opts.no_stop);
    let items = tags.as_vec();
    assert_eq!(items[0].name.0.len(), 16);
}

#[test]
fn share_id_round_trip() {
    let lid = Some("pub:alpha,priv:beta".to_string());
    let (tags, _) = TagsAux::parse_share_id(&lid).unwrap();
    let canonical = tags.canonical_share_id();
    let (tags2, opts2) = TagsAux::parse_share_id(&Some(canonical)).unwrap();
    assert_eq!(tags2.len(), 2);
    let alpha = ducktracker::tags::TagAux::new("alpha", TagVisibility::Public).unwrap();
    let beta = ducktracker::tags::TagAux::new("beta", TagVisibility::Private).unwrap();
    assert!(tags2.contains(&alpha));
    assert!(tags2.contains(&beta));
    assert_eq!(opts2.max_points, None);
    assert!(!opts2.no_stop);
}

#[test]
fn box_coords_reorder_and_reject() {
    let b = BoxCoords::new(10_000_000, 20_000_000, 0, 0).unwrap();
    assert_eq!(b.lat1, 0);
    assert_eq!(b.lat2, 10_000_000);
    assert_eq!(b.lng1, 0);
    assert_eq!(b.lng2, 20_000_000);
    assert!(BoxCoords::new(5, 0, 5, 10).is_err());
    assert!(BoxCoords::new(0, 5, 10, 5).is_err());
}

#[test]
fn wrap_into_box_is_idempotent() {
    let b = BoxCoords::new(0, 0, 10_000_000, 10_000_000).unwrap();
    assert_eq!(b.wrap_latitude(12_000_000), 2_000_000);
    assert_eq!(b.wrap_latitude(-1), 9_999_999);
    assert_eq!(b.wrap_longitude(10_000_000), 0);
    let w = b.wrap_latitude(123_456_789);
    assert_eq!(b.wrap_latitude(w), w);
}
