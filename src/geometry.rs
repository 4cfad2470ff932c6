//! Geometry building: turning assembled rings into polygon shapes, and the
//! point-in-shape test used for containment.
use crate::model::{Coord, Member, MemberKind};
use crate::ring::{assembles, merge_nodes, Vertex};
use geo::Intersects;
use std::collections::HashMap;
use vstd::prelude::*;

verus! {

broadcast use vstd::std_specs::hash::group_hash_axioms;

/// The geometry of a place: a single point (cities), or an area made of one
/// exterior ring (a polygon) or several (a multipolygon), without holes.
#[derive(Clone, Debug)]
pub enum Shape {
    Point(Coord),
    Area(Vec<Vec<Coord>>),
}

/// The rings of a list of rings.
pub open spec fn rings_view(rings: Seq<Vec<Coord>>) -> Seq<Seq<Coord>> {
    rings.map_values(|r: Vec<Coord>| r@)
}

/// The positions of a vertex sequence.
pub open spec fn coords_of(s: Seq<Vertex>) -> Seq<Coord> {
    s.map_values(|v: Vertex| v.coord)
}

/// Whether an assembled path can be an exterior ring: at least two vertices,
/// and closed (its first and last node ids coincide).
pub open spec fn usable_ring(p: Seq<Vertex>) -> bool {
    p.len() >= 2 && p[0].id == p.last().id
}

/// The rings kept from assembled paths, in order.
pub open spec fn usable_rings(paths: Seq<Vec<Vertex>>) -> Seq<Seq<Coord>>
    decreases paths.len(),
{
    if paths.len() == 0 {
        Seq::empty()
    } else if usable_ring(paths.last()@) {
        usable_rings(paths.drop_last()).push(coords_of(paths.last()@))
    } else {
        usable_rings(paths.drop_last())
    }
}

/// The shape made of the given rings: none without rings, a polygon with
/// one, a multipolygon with more.
pub open spec fn shape_of_rings(rings: Seq<Seq<Coord>>, s: Option<Shape>) -> bool {
    if rings.len() == 0 {
        s is None
    } else {
        s matches Some(Shape::Area(v)) && rings_view(v@) == rings
    }
}

/// A shape built from fragments, with the number of assembled paths that
/// were dropped (too short, or open).
pub struct BuiltShape {
    pub shape: Option<Shape>,
    pub dropped: usize,
}

/// The positions of the vertices of a path.
pub fn convert_nodes_to_points(nodes: &Vec<Vertex>) -> (r: Vec<Coord>)
    ensures
        r@ == coords_of(nodes@),
{
    let mut r: Vec<Coord> = Vec::new();
    let mut i: usize = 0;
    while i < nodes.len()
        invariant
            i <= nodes@.len(),
            r@ =~= coords_of(nodes@.subrange(0, i as int)),
        decreases nodes@.len() - i,
    {
        r.push(nodes[i].coord);
        i = i + 1;
    }
    assert(nodes@.subrange(0, nodes@.len() as int) =~= nodes@);
    r
}

/// Keeps the usable rings of assembled paths and makes a shape of them.
pub fn polygon_from_paths(paths: &Vec<Vec<Vertex>>) -> (r: BuiltShape)
    ensures
        shape_of_rings(usable_rings(paths@), r.shape),
        r.dropped == paths@.len() - usable_rings(paths@).len(),
{
    let mut rings: Vec<Vec<Coord>> = Vec::new();
    let mut dropped: usize = 0;
    let mut i: usize = 0;
    while i < paths.len()
        invariant
            i <= paths@.len(),
            rings_view(rings@) =~= usable_rings(paths@.subrange(0, i as int)),
            dropped == i - usable_rings(paths@.subrange(0, i as int)).len(),
            usable_rings(paths@.subrange(0, i as int)).len() <= i,
        decreases paths@.len() - i,
    {
        let ghost pre = paths@.subrange(0, i as int);
        assert(paths@.subrange(0, i + 1).drop_last() =~= pre);
        let n = paths[i].len();
        if n >= 2 && paths[i][0].id == paths[i][n - 1].id {
            let ring = convert_nodes_to_points(&paths[i]);
            rings.push(ring);
        } else {
            dropped = dropped + 1;
        }
        i = i + 1;
    }
    assert(paths@.subrange(0, paths@.len() as int) =~= paths@);
    if rings.len() == 0 {
        BuiltShape { shape: None, dropped }
    } else {
        BuiltShape { shape: Some(Shape::Area(rings)), dropped }
    }
}

/// Builds the shape of one relation from its way fragments: the fragments
/// are assembled into paths, and the closed paths of two or more vertices
/// become the exterior rings.
pub fn build_polygon(fragments: Vec<Vec<Vertex>>) -> (r: BuiltShape)
    ensures
        exists|paths: Seq<Vec<Vertex>>|
            {
                &&& assembles(fragments@, paths)
                &&& shape_of_rings(usable_rings(paths), r.shape)
                &&& r.dropped == paths.len() - usable_rings(paths).len()
            },
{
    let ghost input = fragments@;
    let paths = merge_nodes(fragments);
    let r = polygon_from_paths(&paths);
    assert(assembles(input, paths@));
    r
}

/// The shape of a standalone closed way: a polygon whose exterior is the
/// way; none when the way has fewer than two vertices or is open.
pub fn way_polygon(nodes: &Vec<Vertex>) -> (r: Option<Shape>)
    ensures
        match r {
            Some(s) => usable_ring(nodes@) && (s matches Shape::Area(rings) && rings_view(rings@) == seq![
                coords_of(nodes@),
            ]),
            None => !usable_ring(nodes@),
        },
{
    let n = nodes.len();
    if n >= 2 && nodes[0].id == nodes[n - 1].id {
        let ring = convert_nodes_to_points(nodes);
        let rings = vec![ring];
        assert(rings_view(rings@) =~= seq![coords_of(nodes@)]);
        Some(Shape::Area(rings))
    } else {
        None
    }
}

/// What geo's point-in-multipolygon test answers for these exterior rings.
pub uninterp spec fn rings_cover(rings: Seq<Seq<Coord>>, p: Coord) -> bool;

/// Relies on geo's `Intersects<Coord>` for `MultiPolygon<i128>`: whether the
/// point lies inside or on the boundary of one of the polygons whose
/// exterior rings are given (geo closes each ring).
#[verifier::external_body]
fn rings_intersect_point(rings: &Vec<Vec<Coord>>, p: Coord) -> (r: bool)
    ensures
        r == rings_cover(rings_view(rings@), p),
{
    let to_geo = |c: &Coord| geo::Coord { x: c.lon as i128, y: c.lat as i128 };
    let polygons = rings
        .iter()
        .map(|r| geo::Polygon::new(geo::LineString::new(r.iter().map(to_geo).collect()), vec![]))
        .collect::<Vec<_>>();
    geo::MultiPolygon::new(polygons).intersects(&to_geo(&p))
}

/// Whether a shape covers a point: a point shape covers only itself; an
/// area covers what geo's test says.
pub open spec fn shape_covers(s: Shape, p: Coord) -> bool {
    match s {
        Shape::Point(c) => c == p,
        Shape::Area(rings) => rings_cover(rings_view(rings@), p),
    }
}

/// Whether the shape contains or touches the point.
pub fn covers(s: &Shape, p: Coord) -> (r: bool)
    ensures
        r == shape_covers(*s, p),
{
    match s {
        Shape::Point(c) => *c == p,
        Shape::Area(rings) => rings_intersect_point(rings, p),
    }
}

/// The vertices of a way: its node ids that have a known position, in
/// order, each with that position.
pub open spec fn resolved_vertices(ids: Seq<i64>, coords: Map<i64, Coord>) -> Seq<Vertex>
    decreases ids.len(),
{
    if ids.len() == 0 {
        Seq::empty()
    } else {
        let prev = resolved_vertices(ids.drop_last(), coords);
        if coords.contains_key(ids.last()) {
            prev.push(Vertex { id: ids.last(), coord: coords[ids.last()] })
        } else {
            prev
        }
    }
}

/// The fragments of a relation: for each way member, in order, whose node
/// list is known, the resolved vertices of that way.
pub open spec fn relation_fragments_of(
    members: Seq<Member>,
    ways: Map<i64, Vec<i64>>,
    coords: Map<i64, Coord>,
) -> Seq<Seq<Vertex>>
    decreases members.len(),
{
    if members.len() == 0 {
        Seq::empty()
    } else {
        let prev = relation_fragments_of(members.drop_last(), ways, coords);
        let m = members.last();
        if m.kind == MemberKind::Way && ways.contains_key(m.id) {
            prev.push(resolved_vertices(ways[m.id]@, coords))
        } else {
            prev
        }
    }
}

/// The vertices of a way whose node ids are `ids`.
pub fn way_vertices(ids: &Vec<i64>, coords: &HashMap<i64, Coord>) -> (r: Vec<Vertex>)
    ensures
        r@ == resolved_vertices(ids@, coords@),
{
    let mut r: Vec<Vertex> = Vec::new();
    let mut i: usize = 0;
    while i < ids.len()
        invariant
            i <= ids@.len(),
            r@ == resolved_vertices(ids@.subrange(0, i as int), coords@),
        decreases ids@.len() - i,
    {
        assert(ids@.subrange(0, i + 1).drop_last() =~= ids@.subrange(0, i as int));
        match coords.get(&ids[i]) {
            Some(c) => {
                r.push(Vertex { id: ids[i], coord: *c });
            },
            None => {},
        }
        i = i + 1;
    }
    assert(ids@.subrange(0, ids@.len() as int) =~= ids@);
    r
}

/// The way fragments of a relation, from the way and node maps of a
/// closure: one per way member with a known node list.
pub fn relation_fragments(
    members: &Vec<Member>,
    ways: &HashMap<i64, Vec<i64>>,
    coords: &HashMap<i64, Coord>,
) -> (r: Vec<Vec<Vertex>>)
    ensures
        r@.map_values(|f: Vec<Vertex>| f@) == relation_fragments_of(members@, ways@, coords@),
{
    let mut r: Vec<Vec<Vertex>> = Vec::new();
    let mut i: usize = 0;
    while i < members.len()
        invariant
            i <= members@.len(),
            r@.map_values(|f: Vec<Vertex>| f@) == relation_fragments_of(members@.subrange(0, i as int), ways@, coords@),
        decreases members@.len() - i,
    {
        assert(members@.subrange(0, i + 1).drop_last() =~= members@.subrange(0, i as int));
        let ghost before = r@;
        if members[i].kind == MemberKind::Way {
            match ways.get(&members[i].id) {
                Some(ids) => {
                    let f = way_vertices(ids, coords);
                    r.push(f);
                    assert(r@.map_values(|f: Vec<Vertex>| f@) =~= before.map_values(|f: Vec<Vertex>| f@).push(f@));
                },
                None => {},
            }
        }
        i = i + 1;
    }
    assert(members@.subrange(0, members@.len() as int) =~= members@);
    r
}

/// Where a representative point came from.
#[derive(Clone, Debug)]
pub enum CenterSource {
    /// A relation member node with this significant role.
    Role(String),
    /// A node bearing the place's name, inside its shape.
    Name,
    /// The centroid of the shape.
    Centroid,
    /// The first vertex of the shape.
    Start,
}

/// The first vertex of a shape, if it has one.
pub open spec fn first_vertex(s: Shape) -> Option<Coord> {
    match s {
        Shape::Point(c) => Some(c),
        Shape::Area(rings) => if rings@.len() > 0 && rings@[0]@.len() > 0 {
            Some(rings@[0]@[0])
        } else {
            None
        },
    }
}

/// Picks the representative point: a significant-role member node, else a
/// node named like the place inside its shape, else the centroid, else the
/// first vertex; none when the shape has no vertex at all.
pub fn choose_center(
    role: Option<(Coord, String)>,
    named: Option<Coord>,
    centroid: Option<Coord>,
    shape: &Shape,
) -> (r: Option<(Coord, CenterSource)>)
    ensures
        match role {
            Some((c, name)) => r matches Some((p, CenterSource::Role(n))) && p == c && n@ == name@,
            None => match named {
                Some(c) => r matches Some((p, CenterSource::Name)) && p == c,
                None => match centroid {
                    Some(c) => r matches Some((p, CenterSource::Centroid)) && p == c,
                    None => match first_vertex(*shape) {
                        Some(c) => r matches Some((p, CenterSource::Start)) && p == c,
                        None => r is None,
                    },
                },
            },
        },
{
    match role {
        Some((c, name)) => Some((c, CenterSource::Role(name))),
        None => match named {
            Some(c) => Some((c, CenterSource::Name)),
            None => match centroid {
                Some(c) => Some((c, CenterSource::Centroid)),
                None => match shape {
                    Shape::Point(c) => Some((*c, CenterSource::Start)),
                    Shape::Area(rings) => {
                        if rings.len() > 0 && rings[0].len() > 0 {
                            Some((rings[0][0], CenterSource::Start))
                        } else {
                            None
                        }
                    },
                },
            },
        },
    }
}

} // verus!
