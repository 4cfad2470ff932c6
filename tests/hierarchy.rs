use osm_admin::geometry::{covers, Shape};
use osm_admin::hierarchy::{
    best_candidate, canonical_parent, level_rank, localized_name, parents_from_hits, parse_population,
    resolve_hierarchy, resolve_place, row_places, Level, ParentKey, ParentLink, Place,
};
use osm_admin::model::{Coord, ParsedTags, Tag};

fn tags(pairs: &[(&str, &str)]) -> Vec<Tag> {
    pairs.iter().map(|(k, v)| Tag { key: k.to_string(), value: v.to_string() }).collect()
}

fn square(x0: i32, y0: i32, x1: i32, y1: i32) -> Shape {
    let c = |x, y| Coord { lon: x, lat: y };
    Shape::Area(vec![vec![c(x0, y0), c(x1, y0), c(x1, y1), c(x0, y1), c(x0, y0)]])
}

fn area(level: Level, shape: Shape, t: &[(&str, &str)]) -> Place {
    Place { level, tags: tags(t), shape, center: Coord { lon: 0, lat: 0 }, declared_parent: None }
}

fn city(x: i32, y: i32, t: &[(&str, &str)], declared: Option<&str>) -> Place {
    let p = Coord { lon: x, lat: y };
    Place { level: Level::City, tags: tags(t), shape: Shape::Point(p), center: p, declared_parent: declared.map(|s| s.to_string()) }
}

#[test]
fn shape_covers_inside_and_boundary() {
    let s = square(0, 0, 100, 100);
    assert!(covers(&s, Coord { lon: 50, lat: 50 }));
    assert!(covers(&s, Coord { lon: 0, lat: 50 }));
    assert!(!covers(&s, Coord { lon: 150, lat: 50 }));
    let big = square(-1_800_000_000, -900_000_000, 1_800_000_000, 900_000_000);
    assert!(covers(&big, Coord { lon: 1_799_999_999, lat: 0 }));
    assert!(covers(&Shape::Point(Coord { lon: 1, lat: 2 }), Coord { lon: 1, lat: 2 }));
    assert!(!covers(&Shape::Area(vec![]), Coord { lon: 1, lat: 2 }));
}

#[test]
fn population_parsing() {
    assert_eq!(parse_population(&"500000".to_string()), Some(500000));
    assert_eq!(parse_population(&"0".to_string()), Some(0));
    assert_eq!(parse_population(&"18446744073709551615".to_string()), Some(u64::MAX));
    assert_eq!(parse_population(&"18446744073709551616".to_string()), None);
    assert_eq!(parse_population(&"".to_string()), None);
    assert_eq!(parse_population(&"12 345".to_string()), None);
    assert_eq!(parse_population(&"-5".to_string()), None);
    assert_eq!(parse_population(&"١٢".to_string()), None);
    assert_eq!(parse_population(&"+42".to_string()), Some(42));
    assert_eq!(parse_population(&"+".to_string()), None);
    assert_eq!(parse_population(&"++1".to_string()), None);
    assert_eq!(parse_population(&"4+".to_string()), None);
}

#[test]
fn best_parent_prefers_population_then_short_name() {
    let k = |p: Option<u64>, n: usize| ParentKey { population: p, name_len: n };
    assert_eq!(best_candidate(&vec![]), None);
    assert_eq!(best_candidate(&vec![k(Some(500000), 5), k(Some(900000), 1)]), Some(1));
    assert_eq!(best_candidate(&vec![k(None, 1), k(Some(3), 9)]), Some(1));
    assert_eq!(best_candidate(&vec![k(Some(3), 9), k(Some(3), 4), k(Some(3), 4)]), Some(1));
    assert_eq!(best_candidate(&vec![k(None, 7), k(None, 2), k(None, 2)]), Some(1));
}

#[test]
fn best_parent_same_attributes_any_order() {
    let k = |p: Option<u64>, n: usize| ParentKey { population: p, name_len: n };
    let a = vec![k(Some(10), 4), k(None, 1), k(Some(10), 2), k(Some(7), 1)];
    let mut b = a.clone();
    b.reverse();
    let ia = best_candidate(&a).unwrap();
    let ib = best_candidate(&b).unwrap();
    assert_eq!(a[ia], b[ib]);
    assert_eq!(a[ia], k(Some(10), 2));
}

#[test]
fn city_in_two_regions_takes_more_populous() {
    let places = vec![
        area(Level::Country, square(-10, -10, 300, 300), &[("name", "Land")]),
        area(Level::Region, square(0, 0, 100, 100), &[("name", "North"), ("population", "500000")]),
        area(Level::Region, square(50, 50, 200, 200), &[("name", "N"), ("population", "900000")]),
        city(75, 75, &[("name", "Town")], None),
    ];
    let h = resolve_hierarchy(&places);
    match &h.links[3] {
        ParentLink::Contained(v) => assert_eq!(v, &vec![1, 2]),
        _ => panic!("expected containing regions"),
    }
    assert_eq!(canonical_parent(&places, &h.links[3]), Some(2));
    assert!(matches!(h.links[0], ParentLink::Root));
    assert_eq!(h.excluded, vec![false, false, false, false]);
    let row = row_places(&places, &h.links, 3);
    assert_eq!((row.country, row.region, row.city), (Some(0), Some(2), Some(3)));
}

#[test]
fn parents_always_have_larger_level() {
    let places = vec![
        city(5, 5, &[("name", "A")], None),
        area(Level::Region, square(0, 0, 10, 10), &[("name", "R")]),
        area(Level::Country, square(0, 0, 50, 50), &[("name", "C")]),
        city(40, 40, &[("name", "B")], None),
        area(Level::Region, square(0, 0, 10, 10), &[("name", "R2")]),
    ];
    let h = resolve_hierarchy(&places);
    for (i, l) in h.links.iter().enumerate() {
        let parents = match l {
            ParentLink::Contained(v) => v.clone(),
            ParentLink::Named(p) => vec![*p],
            _ => vec![],
        };
        for p in parents {
            assert!(level_rank(places[p].level) > level_rank(places[i].level));
        }
    }
    match &h.links[3] {
        ParentLink::Contained(v) => assert_eq!(v, &vec![2]),
        _ => panic!("a city outside every region falls back to the country"),
    }
}

#[test]
fn declared_parent_found_by_name() {
    let places = vec![
        area(Level::Country, square(-1000, -1000, 1000, 1000), &[("name", "Land")]),
        area(Level::Region, square(0, 0, 10, 10), &[("name", "Rutland"), ("name:en", "Rutland County")]),
        area(Level::Region, square(20, 20, 30, 30), &[("name", "Rutland"), ("population", "40000")]),
        Place { level: Level::City, tags: tags(&[("name", "Oakham")]), shape: Shape::Point(Coord { lon: 500, lat: 500 }), center: Coord { lon: 500, lat: 500 }, declared_parent: Some("Rutland".to_string()) },
    ];
    let l = resolve_place(&places, 3);
    match l {
        ParentLink::Contained(v) => assert_eq!(v, vec![0]),
        _ => panic!("the country contains the city"),
    }
    let hits = vec![false, false, false, false];
    match parents_from_hits(&places, 3, &hits) {
        ParentLink::Named(p) => {
            assert_eq!(p, 2);
            let name = localized_name(&places[p].tags, &"name:en".to_string(), &"official_name:en".to_string());
            assert_eq!(name, Some("Rutland".to_string()));
            let name1 = localized_name(&places[1].tags, &"name:en".to_string(), &"official_name:en".to_string());
            assert_eq!(name1, Some("Rutland County".to_string()));
        }
        _ => panic!("expected the region named Rutland"),
    }
}

#[test]
fn declared_parent_kept_verbatim() {
    let places = vec![
        area(Level::Region, square(0, 0, 10, 10), &[("name", "Leicestershire")]),
        city(500, 500, &[("name", "Oakham")], Some("Rutland")),
    ];
    let h = resolve_hierarchy(&places);
    match &h.links[1] {
        ParentLink::Verbatim(s) => assert_eq!(s, "Rutland"),
        _ => panic!("expected the declared name verbatim"),
    }
    assert_eq!(h.excluded, vec![true, false]);
}

#[test]
fn orphans_cascade() {
    let places = vec![
        area(Level::Region, square(0, 0, 10, 10), &[("name", "R")]),
        city(5, 5, &[("name", "In")], None),
        city(50, 50, &[("name", "Out")], None),
        area(Level::Country, square(100, 100, 200, 200), &[("name", "C")]),
    ];
    let h = resolve_hierarchy(&places);
    assert!(matches!(h.links[0], ParentLink::Orphan));
    assert!(matches!(h.links[2], ParentLink::Orphan));
    assert_eq!(h.excluded, vec![true, true, true, false]);
}

#[test]
fn localized_name_order() {
    let k = "name:en".to_string();
    let o = "official_name:en".to_string();
    assert_eq!(localized_name(&tags(&[("name", "Wien"), ("name:en", "Vienna")]), &k, &o), Some("Vienna".to_string()));
    assert_eq!(localized_name(&tags(&[("name", "X"), ("official_name:en", "Y")]), &k, &o), Some("Y".to_string()));
    assert_eq!(localized_name(&tags(&[("name", "X")]), &k, &o), Some("X".to_string()));
    assert_eq!(localized_name(&tags(&[]), &k, &o), None);
}

#[test]
fn place_name_and_key() {
    let p = area(Level::Region, square(0, 0, 1, 1), &[("name", "Zürich"), ("population", "421878")]);
    assert_eq!(p.name(), Some("Zürich".to_string()));
    let k = p.key();
    assert_eq!(k, ParentKey { population: Some(421878), name_len: 6 });
}

#[test]
fn parsed_tags_read_fields() {
    let p = ParsedTags::from_tags(&tags(&[("name", "Shire"), ("admin_level", "4"), ("population", "12")])).unwrap();
    assert_eq!((p.name.as_str(), p.admin_level, p.population), ("Shire", 4, 12));
    assert!(p.has_name());
    let q = ParsedTags::from_tags(&tags(&[])).unwrap();
    assert_eq!((q.name.as_str(), q.admin_level, q.population), ("", 0, 0));
    assert!(!q.has_name());
    assert!(ParsedTags::from_tags(&tags(&[("admin_level", "300")])).is_err());
    assert!(ParsedTags::from_tags(&tags(&[("population", "many")])).is_err());
}
