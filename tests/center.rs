use osm_admin::center::{named_center, role_center};
use osm_admin::geometry::{choose_center, CenterSource, Shape};
use osm_admin::model::{Coord, Member, MemberKind, Node, Tag};
use std::collections::HashMap;

fn c(x: i32, y: i32) -> Coord {
    Coord { lon: x, lat: y }
}

fn roles() -> Vec<String> {
    vec!["label".to_string(), "admin_centre".to_string(), "capital".to_string()]
}

#[test]
fn role_member_gives_center() {
    let members = vec![
        Member { kind: MemberKind::Way, id: 1, role: "label".to_string() },
        Member { kind: MemberKind::Node, id: 2, role: "subarea".to_string() },
        Member { kind: MemberKind::Node, id: 3, role: "admin_centre".to_string() },
        Member { kind: MemberKind::Node, id: 4, role: "label".to_string() },
    ];
    let mut coords = HashMap::new();
    coords.insert(3, c(30, 31));
    coords.insert(4, c(40, 41));
    assert_eq!(role_center(&members, &roles(), &coords), Some((c(30, 31), "admin_centre".to_string())));
    coords.remove(&3);
    assert_eq!(role_center(&members, &roles(), &coords), None);
}

#[test]
fn named_node_inside_shape() {
    let shape = Shape::Area(vec![vec![c(0, 0), c(10, 0), c(10, 10), c(0, 10), c(0, 0)]]);
    let named = |id: i64, p: Coord, name: &str| Node { id, coord: p, tags: vec![Tag { key: "name".to_string(), value: name.to_string() }] };
    let nodes = vec![named(1, c(50, 50), "Ville"), named(2, c(5, 5), "Other"), named(3, c(6, 6), "Ville"), named(4, c(7, 7), "Ville")];
    assert_eq!(named_center(&shape, &"Ville".to_string(), &nodes), Some(c(6, 6)));
    assert_eq!(named_center(&shape, &"Nowhere".to_string(), &nodes), None);
}

#[test]
fn center_order() {
    let shape = Shape::Area(vec![vec![c(1, 2), c(3, 4)]]);
    assert!(matches!(choose_center(Some((c(9, 9), "label".to_string())), Some(c(8, 8)), None, &shape), Some((p, CenterSource::Role(r))) if p == c(9, 9) && r == "label"));
    assert!(matches!(choose_center(None, Some(c(8, 8)), Some(c(7, 7)), &shape), Some((p, CenterSource::Name)) if p == c(8, 8)));
    assert!(matches!(choose_center(None, None, Some(c(7, 7)), &shape), Some((p, CenterSource::Centroid)) if p == c(7, 7)));
    assert!(matches!(choose_center(None, None, None, &shape), Some((p, CenterSource::Start)) if p == c(1, 2)));
    assert!(choose_center(None, None, None, &Shape::Area(vec![])).is_none());
}
