use osm_admin::closure::{compute_closure, in_admin_range, read_ways_and_relation, relation_nodes, shadowed_by_relation, source_member, Closure};
use osm_admin::model::{admin_filter, has_admin_tags, Coord, Element, Member, MemberKind, Node, Relation, Tag, TagFilter, Way};

fn tags(pairs: &[(&str, &str)]) -> Vec<Tag> {
    pairs.iter().map(|(k, v)| Tag { key: k.to_string(), value: v.to_string() }).collect()
}

fn strings(xs: &[&str]) -> Vec<String> {
    xs.iter().map(|x| x.to_string()).collect()
}


fn node(id: i64, t: &[(&str, &str)]) -> Element {
    Element::Node(Node { id, coord: Coord { lon: id as i32, lat: -(id as i32) }, tags: tags(t) })
}

fn way(id: i64, nodes: &[i64], t: &[(&str, &str)]) -> Element {
    Element::Way(Way { id, nodes: nodes.to_vec(), tags: tags(t) })
}

fn member(kind: MemberKind, id: i64, role: &str) -> Member {
    Member { kind, id, role: role.to_string() }
}

fn dataset() -> Vec<Element> {
    vec![
        node(1, &[]),
        node(2, &[]),
        node(3, &[]),
        node(4, &[("place", "city"), ("name", "Town")]),
        node(5, &[]),
        node(6, &[]),
        node(7, &[]),
        way(10, &[1, 2], &[]),
        way(11, &[2, 3, 1], &[]),
        way(12, &[5, 6], &[("boundary", "administrative")]),
        way(13, &[6, 7], &[("highway", "primary")]),
        Element::Relation(Relation {
            id: 100,
            members: vec![
                member(MemberKind::Way, 10, "outer"),
                member(MemberKind::Way, 11, "outer"),
                member(MemberKind::Node, 4, "admin_centre"),
                member(MemberKind::Node, 7, "subarea"),
            ],
            tags: tags(&[("admin_level", "4"), ("name", "Shire")]),
        }),
        Element::Relation(Relation {
            id: 101,
            members: vec![member(MemberKind::Way, 13, "outer")],
            tags: tags(&[("route", "bus")]),
        }),
    ]
}

fn roles() -> Vec<String> {
    strings(&["label", "admin_centre", "capital"])
}

fn sorted(set: &std::collections::HashSet<i64>) -> Vec<i64> {
    let mut v: Vec<i64> = set.iter().copied().collect();
    v.sort();
    v
}

#[test]
fn filter_matches_admin_tags() {
    let f = admin_filter();
    assert!(f.admits(&tags(&[("admin_level", "4")])));
    assert!(!f.admits(&tags(&[("admin_level", "6")])));
    assert!(f.admits(&tags(&[("place", "town")])));
    assert!(f.admits(&tags(&[("capital", "yes")])));
    assert!(f.admits(&tags(&[("boundary", "administrative")])));
    assert!(!f.admits(&tags(&[("boundary", "maritime")])));
    assert!(!f.admits(&tags(&[])));
    assert!(has_admin_tags(&tags(&[("place", "village")])));
    assert!(!has_admin_tags(&tags(&[("place", "hamlet")])));
}

#[test]
fn custom_filter_pairs_and_keys() {
    let f = TagFilter { levels: vec![], places: vec![], keys: strings(&["is_in"]), pairs: tags(&[("natural", "coastline")]) };
    assert!(f.admits(&tags(&[("natural", "coastline")])));
    assert!(!f.admits(&tags(&[("natural", "water")])));
    assert!(f.admits(&tags(&[("is_in", "")])));
    assert!(!f.admits(&tags(&[("admin_level", "2")])));
}

#[test]
fn three_passes_keep_the_closure() {
    let c = compute_closure(&admin_filter(), &roles(), &dataset());
    assert_eq!(sorted(&c.relation_ids), vec![100]);
    assert_eq!(sorted(&c.way_refs), vec![10, 11]);
    assert_eq!(sorted(&c.role_nodes), vec![4]);
    assert_eq!(sorted(&c.way_ids), vec![10, 11, 12]);
    assert_eq!(sorted(&c.way_node_ids), vec![1, 2, 3, 5, 6]);
    assert_eq!(sorted(&c.node_ids), vec![1, 2, 3, 4, 5, 6]);
    assert_eq!(c.way_nodes[&11], vec![2, 3, 1]);
    assert_eq!(c.node_coords[&3], Coord { lon: 3, lat: -3 });
    assert_eq!(c.relations.len(), 1);
    assert_eq!(c.relations[0].id, 100);
}

#[test]
fn kept_ways_nodes_are_kept_nodes() {
    let c = compute_closure(&admin_filter(), &roles(), &dataset());
    for n in c.way_node_ids.iter() {
        assert!(c.node_ids.contains(n));
    }
    for w in c.way_refs.iter() {
        assert!(c.way_ids.contains(w));
    }
}

#[test]
fn compaction_twice_gives_same_sets() {
    let f = admin_filter();
    let data = dataset();
    let c = compute_closure(&f, &roles(), &data);
    let compacted: Vec<Element> = data.iter().filter(|e| c.keeps(e)).cloned().collect();
    assert_eq!(compacted.len(), 10);
    let c2 = compute_closure(&f, &roles(), &compacted);
    assert_eq!(sorted(&c2.relation_ids), sorted(&c.relation_ids));
    assert_eq!(sorted(&c2.way_ids), sorted(&c.way_ids));
    assert_eq!(sorted(&c2.node_ids), sorted(&c.node_ids));
    let again: Vec<Element> = compacted.iter().filter(|e| c2.keeps(e)).cloned().collect();
    assert_eq!(again.len(), compacted.len());
}

#[test]
fn passes_over_batches_match_one_run() {
    let f = admin_filter();
    let data = dataset();
    let (a, b) = data.split_at(5);
    let (a, b) = (a.to_vec(), b.to_vec());
    let mut c = Closure::new();
    c.relation_pass(&f, &roles(), &a);
    c.relation_pass(&f, &roles(), &b);
    c.way_pass(&f, &b);
    c.way_pass(&f, &a);
    c.node_pass(&f, &a);
    c.node_pass(&f, &b);
    let whole = compute_closure(&f, &roles(), &data);
    assert_eq!(sorted(&c.node_ids), sorted(&whole.node_ids));
    assert_eq!(sorted(&c.way_ids), sorted(&whole.way_ids));
}

#[test]
fn relation_fragments_follow_members() {
    let c = compute_closure(&admin_filter(), &roles(), &dataset());
    let r = relation_nodes(&c);
    assert_eq!(r.len(), 1);
    assert_eq!(r[0].relation.id, 100);
    let ids: Vec<Vec<i64>> = r[0].nodes.iter().map(|f| f.iter().map(|v| v.id).collect()).collect();
    assert_eq!(ids, vec![vec![1, 2], vec![2, 3, 1]]);
}

#[test]
fn missing_node_is_skipped_in_fragment() {
    let mut data = dataset();
    data.remove(2);
    let c = compute_closure(&admin_filter(), &roles(), &data);
    let r = relation_nodes(&c);
    let ids: Vec<Vec<i64>> = r[0].nodes.iter().map(|f| f.iter().map(|v| v.id).collect()).collect();
    assert_eq!(ids, vec![vec![1, 2], vec![2, 1]]);
}

#[test]
fn keep_decision_by_kind_and_id() {
    let c = compute_closure(&admin_filter(), &roles(), &dataset());
    assert!(c.keeps_id(MemberKind::Relation, 100));
    assert!(!c.keeps_id(MemberKind::Relation, 101));
    assert!(c.keeps_id(MemberKind::Way, 12));
    assert!(!c.keeps_id(MemberKind::Way, 13));
    assert!(c.keeps_id(MemberKind::Node, 4));
    assert!(!c.keeps_id(MemberKind::Node, 7));
    assert!(!c.keeps_id(MemberKind::Node, 100));
}

#[test]
fn source_member_is_first_marked_node() {
    let r = Relation {
        id: 1,
        members: vec![member(MemberKind::Way, 5, ""), member(MemberKind::Node, 6, ""), member(MemberKind::Node, 5, "label")],
        tags: vec![],
    };
    let marked: std::collections::HashSet<i64> = [5, 9].into_iter().collect();
    assert_eq!(source_member(&r, &marked), Some(5));
    let none: std::collections::HashSet<i64> = [9].into_iter().collect();
    assert_eq!(source_member(&r, &none), None);
}

#[test]
fn way_shadowed_by_same_named_relation() {
    let rels = vec![
        Relation { id: 1, members: vec![member(MemberKind::Way, 10, "outer")], tags: tags(&[("name", "Other")]) },
        Relation { id: 2, members: vec![member(MemberKind::Node, 10, ""), member(MemberKind::Way, 11, "outer")], tags: tags(&[("name", "Shire")]) },
    ];
    assert!(shadowed_by_relation(11, &"Shire".to_string(), &rels));
    assert!(!shadowed_by_relation(10, &"Shire".to_string(), &rels));
    assert!(!shadowed_by_relation(11, &"Other".to_string(), &rels));
}

#[test]
fn relations_selected_by_admin_range() {
    assert!(in_admin_range(&tags(&[("place", "town")]), 4, 4));
    assert!(in_admin_range(&tags(&[("boundary", "administrative"), ("admin_level", "4")]), 2, 4));
    assert!(in_admin_range(&tags(&[("boundary", "administrative"), ("admin_level", "+4")]), 4, 4));
    assert!(!in_admin_range(&tags(&[("boundary", "administrative"), ("admin_level", "6")]), 2, 4));
    assert!(!in_admin_range(&tags(&[("admin_level", "4")]), 2, 4));
    assert!(in_admin_range(&tags(&[("boundary", "administrative")]), 2, 255));
    assert!(!in_admin_range(&tags(&[("boundary", "administrative"), ("admin_level", "x")]), 2, 8));

    let f = TagFilter { levels: vec![], places: strings(&["city", "town"]), keys: vec![], pairs: tags(&[("boundary", "administrative")]) };
    let data = vec![
        node(1, &[]),
        node(2, &[]),
        way(10, &[1, 2], &[]),
        Element::Relation(Relation { id: 7, members: vec![member(MemberKind::Way, 10, "outer")], tags: tags(&[("boundary", "administrative"), ("admin_level", "8")]) }),
        Element::Relation(Relation { id: 8, members: vec![member(MemberKind::Way, 10, "outer")], tags: tags(&[("boundary", "administrative"), ("admin_level", "3")]) }),
        Element::Relation(Relation { id: 9, members: vec![], tags: tags(&[("place", "city")]) }),
    ];
    let c = compute_closure(&f, &roles(), &data);
    let r = read_ways_and_relation(&c, 2, 4);
    let ids: Vec<i64> = r.iter().map(|x| x.relation.id).collect();
    assert_eq!(ids, vec![8, 9]);
    assert_eq!(r[0].nodes.len(), 1);
    assert!(r[1].nodes.is_empty());
}
