//! Candidates for a place's representative point: a member node with a
//! significant role, or a node named like the place inside its shape.
use crate::geometry::{covers, shape_covers, Shape};
use crate::model::{contains_str, get_tag, one_of, tag_value, Coord, Member, MemberKind, Node};
use std::collections::HashMap;
use vstd::prelude::*;

verus! {

broadcast use vstd::std_specs::hash::group_hash_axioms;

/// Whether member `m` is a node with one of the significant roles.
pub open spec fn is_role_node(m: Member, roles: Seq<String>) -> bool {
    m.kind == MemberKind::Node && one_of(roles, m.role@)
}

/// Whether `k` is the first member that is a node with a significant role.
pub open spec fn first_role_member(ms: Seq<Member>, roles: Seq<String>, k: int) -> bool {
    &&& 0 <= k < ms.len()
    &&& is_role_node(ms[k], roles)
    &&& forall|j: int| 0 <= j < k ==> !is_role_node(#[trigger] ms[j], roles)
}

/// The position of the first member node with a significant role, with
/// that role; none when there is no such member or its position is unknown.
pub fn role_center(members: &Vec<Member>, roles: &Vec<String>, coords: &HashMap<i64, Coord>) -> (r: Option<(Coord, String)>)
    ensures
        match r {
            Some((c, role)) => exists|k: int|
                first_role_member(members@, roles@, k) && coords@.contains_key(members@[k].id) && c
                    == coords@[members@[k].id] && role@ == members@[k].role@,
            None => forall|k: int|
                first_role_member(members@, roles@, k) ==> !coords@.contains_key(#[trigger] members@[k].id),
        },
{
    let mut k: usize = 0;
    while k < members.len()
        invariant
            k <= members@.len(),
            forall|j: int| 0 <= j < k ==> !is_role_node(#[trigger] members@[j], roles@),
        decreases members@.len() - k,
    {
        if members[k].kind == MemberKind::Node && contains_str(roles, &members[k].role) {
            assert(first_role_member(members@, roles@, k as int));
            return match coords.get(&members[k].id) {
                Some(c) => Some((*c, members[k].role.clone())),
                None => {
                    assert forall|q: int| first_role_member(members@, roles@, q) implies q == k by {
                        if q < k {
                            assert(!is_role_node(members@[q], roles@));
                        } else if q > k {
                            assert(!is_role_node(members@[k as int], roles@));
                        }
                    }
                    None
                },
            };
        }
        k = k + 1;
    }
    None
}

/// Whether node `n` bears the name `name`.
pub open spec fn named(n: Node, name: Seq<char>) -> bool {
    tag_value(n.tags@, "name"@) == Some(name)
}

/// The position of the first node named `name` among those that `hits`
/// marks as inside the place's shape.
pub fn named_center_from_hits(name: &String, nodes: &Vec<Node>, hits: &Vec<bool>) -> (r: Option<Coord>)
    requires
        hits@.len() == nodes@.len(),
    ensures
        match r {
            Some(c) => exists|k: int|
                0 <= k < nodes@.len() && hits@[k] && named(nodes@[k], name@) && c == nodes@[k].coord
                    && forall|j: int| 0 <= j < k ==> !(hits@[j] && #[trigger] named(nodes@[j], name@)),
            None => forall|k: int| 0 <= k < nodes@.len() ==> !(hits@[k] && #[trigger] named(nodes@[k], name@)),
        },
{
    let key = "name".to_owned();
    let mut k: usize = 0;
    while k < nodes.len()
        invariant
            k <= nodes@.len(),
            hits@.len() == nodes@.len(),
            key@ == "name"@,
            forall|j: int| 0 <= j < k ==> !(hits@[j] && #[trigger] named(nodes@[j], name@)),
        decreases nodes@.len() - k,
    {
        if hits[k] {
            match get_tag(&nodes[k].tags, &key) {
                Some(v) => {
                    if v == *name {
                        return Some(nodes[k].coord);
                    }
                },
                None => {},
            }
        }
        k = k + 1;
    }
    None
}

/// The position of the first node named `name` that the shape covers.
pub fn named_center(shape: &Shape, name: &String, nodes: &Vec<Node>) -> (r: Option<Coord>)
    ensures
        match r {
            Some(c) => exists|k: int|
                0 <= k < nodes@.len() && shape_covers(*shape, nodes@[k].coord) && named(nodes@[k], name@)
                    && c == nodes@[k].coord && forall|j: int|
                    0 <= j < k ==> !(shape_covers(*shape, nodes@[j].coord) && #[trigger] named(nodes@[j], name@)),
            None => forall|k: int|
                0 <= k < nodes@.len() ==> !(shape_covers(*shape, nodes@[k].coord) && #[trigger] named(nodes@[k], name@)),
        },
{
    let mut hits: Vec<bool> = Vec::new();
    let mut k: usize = 0;
    while k < nodes.len()
        invariant
            k <= nodes@.len(),
            hits@.len() == k,
            forall|j: int| 0 <= j < k ==> hits@[j] == shape_covers(*shape, #[trigger] nodes@[j].coord),
        decreases nodes@.len() - k,
    {
        let h = covers(shape, nodes[k].coord);
        hits.push(h);
        k = k + 1;
    }
    named_center_from_hits(name, nodes, &hits)
}

} // verus!
