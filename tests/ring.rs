use osm_admin::geometry::{build_polygon, convert_nodes_to_points, polygon_from_paths, way_polygon, Shape};
use osm_admin::model::Coord;
use osm_admin::ring::{assemble_rings, find_match, merge_nodes, reversed, Vertex};

fn v(id: i64) -> Vertex {
    Vertex { id, coord: Coord { lon: (id * 10) as i32, lat: (id * 20) as i32 } }
}

fn frag(ids: &[i64]) -> Vec<Vertex> {
    ids.iter().map(|&i| v(i)).collect()
}

fn ids(p: &Vec<Vertex>) -> Vec<i64> {
    p.iter().map(|x| x.id).collect()
}

fn edges(paths: &Vec<Vec<Vertex>>) -> Vec<(i64, i64)> {
    let mut e = Vec::new();
    for p in paths {
        for w in p.windows(2) {
            let (a, b) = (w[0].id, w[1].id);
            e.push(if a <= b { (a, b) } else { (b, a) });
        }
    }
    e.sort();
    e
}

#[test]
fn three_fragments_make_one_path() {
    let paths = merge_nodes(vec![frag(&[1, 2, 3]), frag(&[5, 4]), frag(&[3, 4])]);
    assert_eq!(paths.len(), 1);
    let p = ids(&paths[0]);
    assert!(p == vec![1, 2, 3, 4, 5] || p == vec![5, 4, 3, 2, 1]);
}

#[test]
fn assembled_edges_equal_input_edges() {
    let input = vec![
        frag(&[1, 2, 3]),
        frag(&[7, 8]),
        frag(&[3, 4]),
        frag(&[6, 5, 4]),
        frag(&[9]),
        frag(&[8, 10, 11]),
        frag(&[]),
    ];
    let before = edges(&input);
    let paths = merge_nodes(input);
    assert_eq!(edges(&paths), before);
    assert!(paths.iter().all(|p| !p.is_empty()));
    assert_eq!(paths.len(), 3);
}

#[test]
fn closed_ring_is_closed() {
    let paths = merge_nodes(vec![frag(&[1, 2, 3]), frag(&[1, 4, 3])]);
    assert_eq!(paths.len(), 1);
    let p = ids(&paths[0]);
    assert_eq!(p.len(), 5);
    assert_eq!(p.first(), p.last());
}

#[test]
fn separate_rings_stay_apart() {
    let paths = merge_nodes(vec![frag(&[1, 2, 1]), frag(&[5, 6, 7, 5])]);
    assert_eq!(paths.len(), 2);
    assert_eq!(ids(&paths[0]), vec![1, 2, 1]);
    assert_eq!(ids(&paths[1]), vec![5, 6, 7, 5]);
}

#[test]
fn empty_input_gives_no_paths() {
    assert!(merge_nodes(vec![]).is_empty());
    assert!(merge_nodes(vec![vec![], vec![]]).is_empty());
}

#[test]
fn find_match_turns_fragment() {
    let mut rest = vec![frag(&[]), frag(&[9, 8]), frag(&[4, 3]), frag(&[3, 7]), frag(&[1, 2])];
    let m = find_match(3, &mut rest).unwrap();
    assert_eq!(ids(&m), vec![3, 4]);
    assert_eq!(rest.len(), 4);
    assert_eq!(ids(&rest[2]), vec![1, 2]);
    assert_eq!(ids(&rest[3]), vec![3, 7]);
    rest.pop();
    assert!(find_match(42, &mut rest).is_none());
    assert_eq!(rest.len(), 3);
}

#[test]
fn reversed_reverses() {
    assert_eq!(ids(&reversed(&frag(&[1, 2, 3]))), vec![3, 2, 1]);
}

#[test]
fn points_of_vertices() {
    let c = convert_nodes_to_points(&frag(&[1, 2]));
    assert_eq!(c, vec![Coord { lon: 10, lat: 20 }, Coord { lon: 20, lat: 40 }]);
}

#[test]
fn one_closed_ring_is_a_polygon() {
    let b = build_polygon(vec![frag(&[1, 2, 3]), frag(&[3, 4, 1])]);
    assert_eq!(b.dropped, 0);
    match b.shape {
        Some(Shape::Area(rings)) => {
            assert_eq!(rings.len(), 1);
            assert_eq!(rings[0].len(), 5);
            assert_eq!(rings[0][0], rings[0][4]);
        }
        _ => panic!("expected a polygon"),
    }
}

#[test]
fn two_closed_rings_are_a_multipolygon() {
    let b = build_polygon(vec![frag(&[1, 2, 3, 1]), frag(&[5, 6, 7]), frag(&[7, 5])]);
    match b.shape {
        Some(Shape::Area(rings)) => assert_eq!(rings.len(), 2),
        _ => panic!("expected a multipolygon"),
    }
}

#[test]
fn open_and_single_point_rings_are_dropped() {
    let b = build_polygon(vec![frag(&[1, 2, 3]), frag(&[9])]);
    assert!(b.shape.is_none());
    assert_eq!(b.dropped, 2);
    let p = polygon_from_paths(&vec![frag(&[1, 2, 1]), frag(&[4, 5])]);
    assert_eq!(p.dropped, 1);
    assert!(matches!(p.shape, Some(Shape::Area(ref r)) if r.len() == 1));
}

#[test]
fn closed_way_is_a_polygon() {
    match way_polygon(&frag(&[1, 2, 3, 1])) {
        Some(Shape::Area(rings)) => assert_eq!(rings, vec![convert_nodes_to_points(&frag(&[1, 2, 3, 1]))]),
        _ => panic!("expected a polygon"),
    }
    assert!(way_polygon(&frag(&[1, 2, 3])).is_none());
    assert!(way_polygon(&frag(&[1])).is_none());
    assert!(way_polygon(&frag(&[])).is_none());
}

#[test]
fn rings_are_flagged_open_or_closed() {
    let rings = assemble_rings(vec![frag(&[1, 2, 3]), frag(&[5, 4]), frag(&[3, 4]), frag(&[7, 8]), frag(&[8, 9, 7])]);
    assert_eq!(rings.len(), 2);
    let first = ids(&rings[0].vertices);
    assert!(first == vec![1, 2, 3, 4, 5] || first == vec![5, 4, 3, 2, 1]);
    assert!(!rings[0].closed);
    assert_eq!(ids(&rings[1].vertices), vec![7, 8, 9, 7]);
    assert!(rings[1].closed);
}

#[test]
fn three_way_junction_uses_every_fragment_once() {
    let input = vec![frag(&[1, 2]), frag(&[2, 3]), frag(&[2, 4]), frag(&[5, 2])];
    let before = edges(&input);
    let a = merge_nodes(input.clone());
    let b = merge_nodes(input);
    assert_eq!(edges(&a), before);
    let total: usize = a.iter().map(|p| p.len()).sum();
    assert_eq!(total, 8 - (4 - a.len()));
    let ida: Vec<Vec<i64>> = a.iter().map(ids).collect();
    let idb: Vec<Vec<i64>> = b.iter().map(ids).collect();
    assert_eq!(ida, idb);
}
