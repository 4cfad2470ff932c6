//! Reference closure: the relations, ways and nodes needed to rebuild the
//! kept places, computed in three passes (relations, then ways, then
//! nodes), and the keep decision of the compaction writer.
use crate::model::{
    admits, contains_str, copy_ids, copy_members, copy_tags, get_tag, one_of, tag_value, Coord,
    Element, Member, MemberKind, Relation, Tag, TagFilter,
};
use crate::geometry::{relation_fragments, relation_fragments_of};
use crate::hierarchy::{parse_population, population_value};
use crate::ring::Vertex;
use std::collections::HashMap;
use std::collections::HashSet;
use vstd::prelude::*;

verus! {

broadcast use vstd::std_specs::hash::group_hash_axioms;

/// The ids that `g` gives for the elements of `s`, together.
pub open spec fn union_over(s: Seq<Element>, g: spec_fn(Element) -> Set<i64>) -> Set<i64> {
    Set::new(|id: i64| exists|i: int| 0 <= i < s.len() && #[trigger] g(s[i]).contains(id))
}

proof fn lemma_union_over_push(s: Seq<Element>, e: Element, g: spec_fn(Element) -> Set<i64>)
    ensures
        union_over(s.push(e), g) == union_over(s, g).union(g(e)),
{
    let t = s.push(e);
    assert forall|id: i64| union_over(t, g).contains(id) implies #[trigger] union_over(s, g).union(
        g(e),
    ).contains(id) by {
        let i = choose|i: int| 0 <= i < t.len() && #[trigger] g(t[i]).contains(id);
        if i < s.len() {
            assert(g(s[i]).contains(id));
        }
    }
    assert forall|id: i64| #[trigger] union_over(s, g).union(g(e)).contains(id) implies union_over(
        t,
        g,
    ).contains(id) by {
        if union_over(s, g).contains(id) {
            let i = choose|i: int| 0 <= i < s.len() && #[trigger] g(s[i]).contains(id);
            assert(t[i] == s[i]);
            assert(g(t[i]).contains(id));
        } else {
            assert(t[s.len() as int] == e);
            assert(g(t[s.len() as int]).contains(id));
        }
    }
    assert(union_over(s.push(e), g) =~= union_over(s, g).union(g(e)));
}

proof fn lemma_union_over_empty(g: spec_fn(Element) -> Set<i64>)
    ensures
        union_over(Seq::empty(), g) == Set::<i64>::empty(),
{
    assert(union_over(Seq::empty(), g) =~= Set::<i64>::empty());
}

/// The ids of the members of the given kind.
pub open spec fn member_ids(ms: Seq<Member>, kind: MemberKind) -> Set<i64> {
    Set::new(|id: i64| exists|m: int| 0 <= m < ms.len() && #[trigger] ms[m].kind == kind && ms[m].id == id)
}

/// The ids of the node members whose role is one of `roles`.
pub open spec fn role_node_ids(ms: Seq<Member>, roles: Seq<String>) -> Set<i64> {
    Set::new(
        |id: i64|
            exists|m: int|
                0 <= m < ms.len() && #[trigger] ms[m].kind == MemberKind::Node && one_of(roles, ms[m].role@)
                    && ms[m].id == id,
    )
}

/// The relation's id, if it passes the filter.
pub open spec fn relation_ids_of(f: TagFilter, e: Element) -> Set<i64> {
    match e {
        Element::Relation(r) => if admits(f, r.tags@) {
            set![r.id]
        } else {
            Set::empty()
        },
        _ => Set::empty(),
    }
}

/// The way ids that a kept relation refers to.
pub open spec fn way_refs_of(f: TagFilter, e: Element) -> Set<i64> {
    match e {
        Element::Relation(r) => if admits(f, r.tags@) {
            member_ids(r.members@, MemberKind::Way)
        } else {
            Set::empty()
        },
        _ => Set::empty(),
    }
}

/// The node ids that a kept relation refers to with a significant role.
pub open spec fn role_nodes_of(f: TagFilter, roles: Seq<String>, e: Element) -> Set<i64> {
    match e {
        Element::Relation(r) => if admits(f, r.tags@) {
            role_node_ids(r.members@, roles)
        } else {
            Set::empty()
        },
        _ => Set::empty(),
    }
}

/// Whether a way is kept: referenced by a kept relation, or passing the filter.
pub open spec fn way_kept(f: TagFilter, refs: Set<i64>, e: Element) -> bool {
    e matches Element::Way(w) && (refs.contains(w.id) || admits(f, w.tags@))
}

/// The id of a kept way.
pub open spec fn way_ids_of(f: TagFilter, refs: Set<i64>, e: Element) -> Set<i64> {
    match e {
        Element::Way(w) => if way_kept(f, refs, e) {
            set![w.id]
        } else {
            Set::empty()
        },
        _ => Set::empty(),
    }
}

/// The node ids of a kept way.
pub open spec fn way_nodes_of(f: TagFilter, refs: Set<i64>, e: Element) -> Set<i64> {
    match e {
        Element::Way(w) => if way_kept(f, refs, e) {
            w.nodes@.to_set()
        } else {
            Set::empty()
        },
        _ => Set::empty(),
    }
}

/// Whether a node is kept: wanted by a kept way or relation, or passing the filter.
pub open spec fn node_kept(f: TagFilter, wanted: Set<i64>, e: Element) -> bool {
    e matches Element::Node(n) && (wanted.contains(n.id) || admits(f, n.tags@))
}

/// The id of a kept node.
pub open spec fn node_ids_of(f: TagFilter, wanted: Set<i64>, e: Element) -> Set<i64> {
    match e {
        Element::Node(n) => if node_kept(f, wanted, e) {
            set![n.id]
        } else {
            Set::empty()
        },
        _ => Set::empty(),
    }
}

/// `relation_ids_of` for a fixed filter.
pub open spec fn relation_ids_g(f: TagFilter) -> spec_fn(Element) -> Set<i64> {
    |e: Element| relation_ids_of(f, e)
}

/// `way_refs_of` for a fixed filter.
pub open spec fn way_refs_g(f: TagFilter) -> spec_fn(Element) -> Set<i64> {
    |e: Element| way_refs_of(f, e)
}

/// `role_nodes_of` for a fixed filter and roles.
pub open spec fn role_nodes_g(f: TagFilter, roles: Seq<String>) -> spec_fn(Element) -> Set<i64> {
    |e: Element| role_nodes_of(f, roles, e)
}

/// `way_ids_of` for a fixed filter and referenced ways.
pub open spec fn way_ids_g(f: TagFilter, refs: Set<i64>) -> spec_fn(Element) -> Set<i64> {
    |e: Element| way_ids_of(f, refs, e)
}

/// `way_nodes_of` for a fixed filter and referenced ways.
pub open spec fn way_nodes_g(f: TagFilter, refs: Set<i64>) -> spec_fn(Element) -> Set<i64> {
    |e: Element| way_nodes_of(f, refs, e)
}

/// `node_ids_of` for a fixed filter and wanted nodes.
pub open spec fn node_ids_g(f: TagFilter, wanted: Set<i64>) -> spec_fn(Element) -> Set<i64> {
    |e: Element| node_ids_of(f, wanted, e)
}

/// A relation record as plain values.
pub open spec fn relation_view(r: Relation) -> (i64, Seq<Member>, Seq<Tag>) {
    (r.id, r.members@, r.tags@)
}

/// The records of the kept relations of `s`, in order.
pub open spec fn kept_relation_views(f: TagFilter, s: Seq<Element>) -> Seq<(i64, Seq<Member>, Seq<Tag>)>
    decreases s.len(),
{
    if s.len() == 0 {
        Seq::empty()
    } else {
        let prev = kept_relation_views(f, s.drop_last());
        match s.last() {
            Element::Relation(r) => if admits(f, r.tags@) {
                prev.push(relation_view(r))
            } else {
                prev
            },
            _ => prev,
        }
    }
}

/// Kept relation ids of stream `s`.
pub open spec fn closure_relations(f: TagFilter, s: Seq<Element>) -> Set<i64> {
    union_over(s, relation_ids_g(f))
}

/// Way ids referenced by the kept relations of `s`.
pub open spec fn closure_way_refs(f: TagFilter, s: Seq<Element>) -> Set<i64> {
    union_over(s, way_refs_g(f))
}

/// Node ids referenced with a significant role by the kept relations of `s`.
pub open spec fn closure_role_nodes(f: TagFilter, roles: Seq<String>, s: Seq<Element>) -> Set<i64> {
    union_over(s, role_nodes_g(f, roles))
}

/// Kept way ids of stream `s`.
pub open spec fn closure_ways(f: TagFilter, s: Seq<Element>) -> Set<i64> {
    union_over(s, way_ids_g(f, closure_way_refs(f, s)))
}

/// Node ids of the kept ways of `s`.
pub open spec fn closure_way_nodes(f: TagFilter, s: Seq<Element>) -> Set<i64> {
    union_over(s, way_nodes_g(f, closure_way_refs(f, s)))
}

/// Node ids wanted by the kept ways and relations of `s`.
pub open spec fn closure_wanted_nodes(f: TagFilter, roles: Seq<String>, s: Seq<Element>) -> Set<i64> {
    closure_way_nodes(f, s).union(closure_role_nodes(f, roles, s))
}

/// Kept node ids of stream `s`.
pub open spec fn closure_nodes(f: TagFilter, roles: Seq<String>, s: Seq<Element>) -> Set<i64> {
    union_over(s, node_ids_g(f, closure_wanted_nodes(f, roles, s)))
}

/// The state of a closure computation, filled pass by pass.
pub struct Closure {
    pub relation_ids: HashSet<i64>,
    pub way_refs: HashSet<i64>,
    pub role_nodes: HashSet<i64>,
    pub relations: Vec<Relation>,
    pub way_ids: HashSet<i64>,
    pub way_node_ids: HashSet<i64>,
    pub way_nodes: HashMap<i64, Vec<i64>>,
    pub node_ids: HashSet<i64>,
    pub node_coords: HashMap<i64, Coord>,
}

proof fn lemma_member_ids_push(ms: Seq<Member>, m: Member, kind: MemberKind)
    ensures
        member_ids(ms.push(m), kind) == if m.kind == kind {
            member_ids(ms, kind).insert(m.id)
        } else {
            member_ids(ms, kind)
        },
{
    let post = ms.push(m);
    let expected = if m.kind == kind {
        member_ids(ms, kind).insert(m.id)
    } else {
        member_ids(ms, kind)
    };
    assert(post[ms.len() as int] == m);
    assert forall|id: i64| #[trigger] member_ids(post, kind).contains(id) implies expected.contains(id) by {
        let j = choose|j: int| 0 <= j < post.len() && #[trigger] post[j].kind == kind && post[j].id == id;
        if j < ms.len() {
            assert(ms[j] == post[j]);
        }
    }
    assert forall|id: i64| #[trigger] expected.contains(id) implies member_ids(post, kind).contains(id) by {
        if member_ids(ms, kind).contains(id) {
            let j = choose|j: int| 0 <= j < ms.len() && #[trigger] ms[j].kind == kind && ms[j].id == id;
            assert(ms[j] == post[j]);
        }
    }
    assert(member_ids(post, kind) =~= expected);
}

fn insert_member_ids(set: &mut HashSet<i64>, ms: &Vec<Member>)
    ensures
        final(set)@ == old(set)@.union(member_ids(ms@, MemberKind::Way)),
{
    let mut i: usize = 0;
    while i < ms.len()
        invariant
            i <= ms@.len(),
            set@ =~= old(set)@.union(member_ids(ms@.subrange(0, i as int), MemberKind::Way)),
        decreases ms@.len() - i,
    {
        let ghost pre = ms@.subrange(0, i as int);
        proof {
            assert(ms@.subrange(0, i + 1) =~= pre.push(ms@[i as int]));
            lemma_member_ids_push(pre, ms@[i as int], MemberKind::Way);
        }
        if ms[i].kind == MemberKind::Way {
            set.insert(ms[i].id);
        }
        i = i + 1;
    }
    assert(ms@.subrange(0, ms@.len() as int) =~= ms@);
}

fn insert_role_ids(set: &mut HashSet<i64>, ms: &Vec<Member>, roles: &Vec<String>)
    ensures
        final(set)@ == old(set)@.union(role_node_ids(ms@, roles@)),
{
    let mut i: usize = 0;
    while i < ms.len()
        invariant
            i <= ms@.len(),
            set@ =~= old(set)@.union(role_node_ids(ms@.subrange(0, i as int), roles@)),
        decreases ms@.len() - i,
    {
        let ghost pre = ms@.subrange(0, i as int);
        let ghost post = ms@.subrange(0, i + 1);
        let hit = ms[i].kind == MemberKind::Node && contains_str(roles, &ms[i].role);
        if hit {
            set.insert(ms[i].id);
        }
        assert(role_node_ids(post, roles@) =~= if hit {
            role_node_ids(pre, roles@).insert(ms@[i as int].id)
        } else {
            role_node_ids(pre, roles@)
        }) by {
            assert(post[i as int] == ms@[i as int]);
            assert forall|id: i64| #[trigger] role_node_ids(post, roles@).contains(id) implies (if hit {
                role_node_ids(pre, roles@).insert(ms@[i as int].id)
            } else {
                role_node_ids(pre, roles@)
            }).contains(id) by {
                let m = choose|m: int|
                    0 <= m < post.len() && #[trigger] post[m].kind == MemberKind::Node && one_of(roles@, post[m].role@)
                        && post[m].id == id;
                if m < i {
                    assert(pre[m] == post[m]);
                }
            }
            assert forall|id: i64| #[trigger] role_node_ids(pre, roles@).contains(id) implies role_node_ids(post, roles@).contains(id) by {
                let m = choose|m: int|
                    0 <= m < pre.len() && #[trigger] pre[m].kind == MemberKind::Node && one_of(roles@, pre[m].role@)
                        && pre[m].id == id;
                assert(pre[m] == post[m]);
            }
        }
        i = i + 1;
    }
    assert(ms@.subrange(0, ms@.len() as int) =~= ms@);
}

fn insert_all(set: &mut HashSet<i64>, ids: &Vec<i64>)
    ensures
        final(set)@ == old(set)@.union(ids@.to_set()),
{
    let mut i: usize = 0;
    while i < ids.len()
        invariant
            i <= ids@.len(),
            set@ =~= old(set)@.union(ids@.subrange(0, i as int).to_set()),
        decreases ids@.len() - i,
    {
        set.insert(ids[i]);
        assert(ids@.subrange(0, i + 1).to_set() =~= ids@.subrange(0, i as int).to_set().insert(ids@[i as int])) by {
            let pre = ids@.subrange(0, i as int);
            let post = ids@.subrange(0, i + 1);
            assert forall|x: i64| #[trigger] post.contains(x) implies pre.to_set().insert(ids@[i as int]).contains(x) by {
                let k = choose|k: int| 0 <= k < post.len() && post[k] == x;
                if k < i {
                    assert(pre[k] == x);
                }
            }
            assert forall|x: i64| #[trigger] pre.contains(x) implies post.contains(x) by {
                let k = choose|k: int| 0 <= k < pre.len() && pre[k] == x;
                assert(post[k] == x);
            }
            assert(post[i as int] == ids@[i as int]);
        }
        i = i + 1;
    }
    assert(ids@.subrange(0, ids@.len() as int) =~= ids@);
}

proof fn lemma_kept_views_push(f: TagFilter, s: Seq<Element>, e: Element)
    ensures
        kept_relation_views(f, s.push(e)) == kept_relation_views(f, s) + kept_relation_views(f, seq![e]),
{
    let one = seq![e];
    assert(s.push(e).drop_last() =~= s);
    assert(one.drop_last() =~= Seq::<Element>::empty());
    assert(kept_relation_views(f, one.drop_last()) == Seq::<(i64, Seq<Member>, Seq<Tag>)>::empty());
    assert(kept_relation_views(f, s) + Seq::empty() =~= kept_relation_views(f, s));
    match e {
        Element::Relation(r) => {
            if admits(f, r.tags@) {
                assert(kept_relation_views(f, one) =~= seq![relation_view(r)]);
                assert(kept_relation_views(f, s.push(e)) =~= kept_relation_views(f, s) + seq![relation_view(r)]);
            }
        },
        _ => {},
    }
}

/// Whether the way map holds, for each kept way id of `batch`, the node ids
/// of a kept way of `batch` with that id, and otherwise what `before` held.
pub open spec fn way_map_from(
    before: Map<i64, Vec<i64>>,
    after: Map<i64, Vec<i64>>,
    f: TagFilter,
    refs: Set<i64>,
    batch: Seq<Element>,
) -> bool {
    &&& after.dom() == before.dom().union(union_over(batch, way_ids_g(f, refs)))
    &&& forall|k: i64|
        #[trigger] after.contains_key(k) ==> (before.contains_key(k) && after[k] == before[k]) || exists|i: int|
            0 <= i < batch.len() && way_kept(f, refs, #[trigger] batch[i]) && (batch[i] matches Element::Way(w)
                && w.id == k && after[k]@ == w.nodes@)
}

/// Whether the coordinate map holds, for each kept node id of `batch`, the
/// position of a kept node of `batch` with that id, and otherwise what
/// `before` held.
pub open spec fn coord_map_from(
    before: Map<i64, Coord>,
    after: Map<i64, Coord>,
    f: TagFilter,
    wanted: Set<i64>,
    batch: Seq<Element>,
) -> bool {
    &&& after.dom() == before.dom().union(union_over(batch, node_ids_g(f, wanted)))
    &&& forall|k: i64|
        #[trigger] after.contains_key(k) ==> (before.contains_key(k) && after[k] == before[k]) || exists|i: int|
            0 <= i < batch.len() && node_kept(f, wanted, #[trigger] batch[i]) && (batch[i] matches Element::Node(n)
                && n.id == k && after[k] == n.coord)
}

impl Closure {
    /// An empty closure, before any pass.
    pub fn new() -> (r: Closure)
        ensures
            r.relation_ids@ == Set::<i64>::empty(),
            r.way_refs@ == Set::<i64>::empty(),
            r.role_nodes@ == Set::<i64>::empty(),
            r.relations@ == Seq::<Relation>::empty(),
            r.way_ids@ == Set::<i64>::empty(),
            r.way_node_ids@ == Set::<i64>::empty(),
            r.way_nodes@ == Map::<i64, Vec<i64>>::empty(),
            r.node_ids@ == Set::<i64>::empty(),
            r.node_coords@ == Map::<i64, Coord>::empty(),
    {
        Closure {
            relation_ids: HashSet::new(),
            way_refs: HashSet::new(),
            role_nodes: HashSet::new(),
            relations: Vec::new(),
            way_ids: HashSet::new(),
            way_node_ids: HashSet::new(),
            way_nodes: HashMap::new(),
            node_ids: HashSet::new(),
            node_coords: HashMap::new(),
        }
    }

    /// First pass, one element: a relation that passes the filter is kept,
    /// with the ways it refers to and its nodes of a significant role.
    pub fn observe_relation(&mut self, f: &TagFilter, roles: &Vec<String>, e: &Element)
        ensures
            final(self).relation_ids@ == old(self).relation_ids@.union(relation_ids_of(*f, *e)),
            final(self).way_refs@ == old(self).way_refs@.union(way_refs_of(*f, *e)),
            final(self).role_nodes@ == old(self).role_nodes@.union(role_nodes_of(*f, roles@, *e)),
            final(self).relations@.map_values(|r: Relation| relation_view(r)) == old(self).relations@.map_values(
                |r: Relation| relation_view(r),
            ) + kept_relation_views(*f, seq![*e]),
            final(self).way_ids == old(self).way_ids,
            final(self).way_node_ids == old(self).way_node_ids,
            final(self).way_nodes == old(self).way_nodes,
            final(self).node_ids == old(self).node_ids,
            final(self).node_coords == old(self).node_coords,
    {
        let ghost one = seq![*e];
        assert(one.drop_last() =~= Seq::<Element>::empty());
        assert(one.last() == *e);
        assert(kept_relation_views(*f, one.drop_last()) == Seq::<(i64, Seq<Member>, Seq<Tag>)>::empty());
        match e {
            Element::Relation(r) => {
                if f.admits(&r.tags) {
                    self.relation_ids.insert(r.id);
                    assert(set![r.id] =~= Set::<i64>::empty().insert(r.id));
                    insert_member_ids(&mut self.way_refs, &r.members);
                    insert_role_ids(&mut self.role_nodes, &r.members, roles);
                    let rec = Relation { id: r.id, members: copy_members(&r.members), tags: copy_tags(&r.tags) };
                    let ghost before = self.relations@;
                    self.relations.push(rec);
                    assert(self.relations@.map_values(|r: Relation| relation_view(r)) =~= before.map_values(
                        |r: Relation| relation_view(r),
                    ).push(relation_view(rec)));
                    assert(kept_relation_views(*f, one) =~= seq![relation_view(*r)]);
                    assert(relation_view(rec) == relation_view(*r));
                } else {
                    assert(self.relation_ids@.union(Set::empty()) =~= self.relation_ids@);
                    assert(self.way_refs@.union(Set::empty()) =~= self.way_refs@);
                    assert(self.role_nodes@.union(Set::empty()) =~= self.role_nodes@);
                    assert(self.relations@.map_values(|r: Relation| relation_view(r)) + Seq::empty() =~= self.relations@.map_values(|r: Relation| relation_view(r)));
                }
            },
            _ => {
                assert(self.relation_ids@.union(Set::empty()) =~= self.relation_ids@);
                assert(self.way_refs@.union(Set::empty()) =~= self.way_refs@);
                assert(self.role_nodes@.union(Set::empty()) =~= self.role_nodes@);
                assert(self.relations@.map_values(|r: Relation| relation_view(r)) + Seq::empty() =~= self.relations@.map_values(|r: Relation| relation_view(r)));
            },
        }
    }

    /// Second pass, one element: a way referenced by a kept relation, or
    /// passing the filter, is kept with its node ids.
    pub fn observe_way(&mut self, f: &TagFilter, e: &Element)
        ensures
            final(self).way_ids@ == old(self).way_ids@.union(way_ids_of(*f, old(self).way_refs@, *e)),
            final(self).way_node_ids@ == old(self).way_node_ids@.union(
                way_nodes_of(*f, old(self).way_refs@, *e),
            ),
            match *e {
                Element::Way(w) => if way_kept(*f, old(self).way_refs@, *e) {
                    &&& final(self).way_nodes@.dom() == old(self).way_nodes@.dom().insert(w.id)
                    &&& final(self).way_nodes@[w.id]@ == w.nodes@
                    &&& forall|k: i64| k != w.id && old(self).way_nodes@.contains_key(k) ==> #[trigger] final(self).way_nodes@[k] == old(self).way_nodes@[k]
                } else {
                    final(self).way_nodes == old(self).way_nodes
                },
                _ => final(self).way_nodes == old(self).way_nodes,
            },
            final(self).relation_ids == old(self).relation_ids,
            final(self).way_refs == old(self).way_refs,
            final(self).role_nodes == old(self).role_nodes,
            final(self).relations == old(self).relations,
            final(self).node_ids == old(self).node_ids,
            final(self).node_coords == old(self).node_coords,
    {
        match e {
            Element::Way(w) => {
                if self.way_refs.contains(&w.id) || f.admits(&w.tags) {
                    self.way_ids.insert(w.id);
                    assert(set![w.id] =~= Set::<i64>::empty().insert(w.id));
                    insert_all(&mut self.way_node_ids, &w.nodes);
                    self.way_nodes.insert(w.id, copy_ids(&w.nodes));
                } else {
                    assert(self.way_ids@.union(Set::empty()) =~= self.way_ids@);
                    assert(self.way_node_ids@.union(Set::empty()) =~= self.way_node_ids@);
                }
            },
            _ => {
                assert(self.way_ids@.union(Set::empty()) =~= self.way_ids@);
                assert(self.way_node_ids@.union(Set::empty()) =~= self.way_node_ids@);
            },
        }
    }

    /// Third pass, one element: a node wanted by a kept way or relation, or
    /// passing the filter, is kept with its position.
    pub fn observe_node(&mut self, f: &TagFilter, e: &Element)
        ensures
            final(self).node_ids@ == old(self).node_ids@.union(
                node_ids_of(*f, old(self).way_node_ids@.union(old(self).role_nodes@), *e),
            ),
            match *e {
                Element::Node(n) => if node_kept(*f, old(self).way_node_ids@.union(old(self).role_nodes@), *e) {
                    final(self).node_coords@ == old(self).node_coords@.insert(n.id, n.coord)
                } else {
                    final(self).node_coords == old(self).node_coords
                },
                _ => final(self).node_coords == old(self).node_coords,
            },
            final(self).relation_ids == old(self).relation_ids,
            final(self).way_refs == old(self).way_refs,
            final(self).role_nodes == old(self).role_nodes,
            final(self).relations == old(self).relations,
            final(self).way_ids == old(self).way_ids,
            final(self).way_node_ids == old(self).way_node_ids,
            final(self).way_nodes == old(self).way_nodes,
    {
        match e {
            Element::Node(n) => {
                if self.way_node_ids.contains(&n.id) || self.role_nodes.contains(&n.id) || f.admits(&n.tags) {
                    self.node_ids.insert(n.id);
                    assert(set![n.id] =~= Set::<i64>::empty().insert(n.id));
                    self.node_coords.insert(n.id, n.coord);
                } else {
                    assert(self.node_ids@.union(Set::empty()) =~= self.node_ids@);
                }
            },
            _ => {
                assert(self.node_ids@.union(Set::empty()) =~= self.node_ids@);
            },
        }
    }

    /// The relation pass over a batch of elements.
    pub fn relation_pass(&mut self, f: &TagFilter, roles: &Vec<String>, batch: &Vec<Element>)
        ensures
            final(self).relation_ids@ == old(self).relation_ids@.union(union_over(batch@, relation_ids_g(*f))),
            final(self).way_refs@ == old(self).way_refs@.union(union_over(batch@, way_refs_g(*f))),
            final(self).role_nodes@ == old(self).role_nodes@.union(union_over(batch@, role_nodes_g(*f, roles@))),
            final(self).relations@.map_values(|r: Relation| relation_view(r)) == old(self).relations@.map_values(
                |r: Relation| relation_view(r),
            ) + kept_relation_views(*f, batch@),
            final(self).way_ids == old(self).way_ids,
            final(self).way_node_ids == old(self).way_node_ids,
            final(self).way_nodes == old(self).way_nodes,
            final(self).node_ids == old(self).node_ids,
            final(self).node_coords == old(self).node_coords,
    {
        let mut i: usize = 0;
        proof {
            lemma_union_over_empty(relation_ids_g(*f));
            lemma_union_over_empty(way_refs_g(*f));
            lemma_union_over_empty(role_nodes_g(*f, roles@));
            assert(batch@.subrange(0, 0) =~= Seq::<Element>::empty());
            assert(old(self).relation_ids@.union(Set::empty()) =~= old(self).relation_ids@);
            assert(old(self).way_refs@.union(Set::empty()) =~= old(self).way_refs@);
            assert(old(self).role_nodes@.union(Set::empty()) =~= old(self).role_nodes@);
            assert(kept_relation_views(*f, Seq::<Element>::empty()) == Seq::<(i64, Seq<Member>, Seq<Tag>)>::empty());
            assert(old(self).relations@.map_values(|r: Relation| relation_view(r)) + Seq::empty() =~= old(self).relations@.map_values(|r: Relation| relation_view(r)));
        }
        while i < batch.len()
            invariant
                i <= batch@.len(),
                self.relation_ids@ == old(self).relation_ids@.union(union_over(batch@.subrange(0, i as int), relation_ids_g(*f))),
                self.way_refs@ == old(self).way_refs@.union(union_over(batch@.subrange(0, i as int), way_refs_g(*f))),
                self.role_nodes@ == old(self).role_nodes@.union(union_over(batch@.subrange(0, i as int), role_nodes_g(*f, roles@))),
                self.relations@.map_values(|r: Relation| relation_view(r)) == old(self).relations@.map_values(
                    |r: Relation| relation_view(r),
                ) + kept_relation_views(*f, batch@.subrange(0, i as int)),
                self.way_ids == old(self).way_ids,
                self.way_node_ids == old(self).way_node_ids,
                self.way_nodes == old(self).way_nodes,
                self.node_ids == old(self).node_ids,
                self.node_coords == old(self).node_coords,
            decreases batch@.len() - i,
        {
            let ghost pre = batch@.subrange(0, i as int);
            let ghost e = batch@[i as int];
            let ghost views = old(self).relations@.map_values(|r: Relation| relation_view(r));
            self.observe_relation(f, roles, &batch[i]);
            proof {
                assert(batch@.subrange(0, i + 1) =~= pre.push(e));
                lemma_union_over_push(pre, e, relation_ids_g(*f));
                lemma_union_over_push(pre, e, way_refs_g(*f));
                lemma_union_over_push(pre, e, role_nodes_g(*f, roles@));
                lemma_kept_views_push(*f, pre, e);
                assert(self.relation_ids@ =~= old(self).relation_ids@.union(union_over(pre.push(e), relation_ids_g(*f))));
                assert(self.way_refs@ =~= old(self).way_refs@.union(union_over(pre.push(e), way_refs_g(*f))));
                assert(self.role_nodes@ =~= old(self).role_nodes@.union(union_over(pre.push(e), role_nodes_g(*f, roles@))));
                assert(views + kept_relation_views(*f, pre) + kept_relation_views(*f, seq![e]) =~= views + (kept_relation_views(*f, pre) + kept_relation_views(*f, seq![e])));
            }
            i = i + 1;
        }
        assert(batch@.subrange(0, batch@.len() as int) =~= batch@);
    }

    /// The way pass over a batch of elements, after the relation pass.
    pub fn way_pass(&mut self, f: &TagFilter, batch: &Vec<Element>)
        ensures
            final(self).way_ids@ == old(self).way_ids@.union(union_over(batch@, way_ids_g(*f, old(self).way_refs@))),
            final(self).way_node_ids@ == old(self).way_node_ids@.union(
                union_over(batch@, way_nodes_g(*f, old(self).way_refs@)),
            ),
            way_map_from(old(self).way_nodes@, final(self).way_nodes@, *f, old(self).way_refs@, batch@),
            final(self).relation_ids == old(self).relation_ids,
            final(self).way_refs == old(self).way_refs,
            final(self).role_nodes == old(self).role_nodes,
            final(self).relations == old(self).relations,
            final(self).node_ids == old(self).node_ids,
            final(self).node_coords == old(self).node_coords,
    {
        let ghost refs = old(self).way_refs@;
        let mut i: usize = 0;
        proof {
            lemma_union_over_empty(way_ids_g(*f, refs));
            lemma_union_over_empty(way_nodes_g(*f, refs));
            assert(batch@.subrange(0, 0) =~= Seq::<Element>::empty());
            assert(old(self).way_ids@.union(Set::empty()) =~= old(self).way_ids@);
            assert(old(self).way_node_ids@.union(Set::empty()) =~= old(self).way_node_ids@);
            assert(old(self).way_nodes@.dom().union(Set::empty()) =~= old(self).way_nodes@.dom());
        }
        while i < batch.len()
            invariant
                i <= batch@.len(),
                self.way_ids@ == old(self).way_ids@.union(union_over(batch@.subrange(0, i as int), way_ids_g(*f, refs))),
                self.way_node_ids@ == old(self).way_node_ids@.union(union_over(batch@.subrange(0, i as int), way_nodes_g(*f, refs))),
                way_map_from(old(self).way_nodes@, self.way_nodes@, *f, refs, batch@.subrange(0, i as int)),
                refs == old(self).way_refs@,
                self.relation_ids == old(self).relation_ids,
                self.way_refs == old(self).way_refs,
                self.role_nodes == old(self).role_nodes,
                self.relations == old(self).relations,
                self.node_ids == old(self).node_ids,
                self.node_coords == old(self).node_coords,
            decreases batch@.len() - i,
        {
            let ghost pre = batch@.subrange(0, i as int);
            let ghost post = batch@.subrange(0, i + 1);
            let ghost e = batch@[i as int];
            let ghost mid = self.way_nodes@;
            self.observe_way(f, &batch[i]);
            proof {
                assert(post =~= pre.push(e));
                lemma_union_over_push(pre, e, way_ids_g(*f, refs));
                lemma_union_over_push(pre, e, way_nodes_g(*f, refs));
                assert(self.way_ids@ =~= old(self).way_ids@.union(union_over(post, way_ids_g(*f, refs))));
                assert(self.way_node_ids@ =~= old(self).way_node_ids@.union(union_over(post, way_nodes_g(*f, refs))));
                assert(self.way_nodes@.dom() =~= old(self).way_nodes@.dom().union(union_over(post, way_ids_g(*f, refs))));
                assert forall|k: i64| #[trigger] self.way_nodes@.contains_key(k) implies (old(self).way_nodes@.contains_key(k)
                    && self.way_nodes@[k] == old(self).way_nodes@[k]) || exists|j: int|
                    0 <= j < post.len() && way_kept(*f, refs, #[trigger] post[j]) && (post[j] matches Element::Way(w)
                        && w.id == k && self.way_nodes@[k]@ == w.nodes@) by {
                    if way_kept(*f, refs, e) && (e matches Element::Way(w) && w.id == k) {
                        assert(post[i as int] == e);
                    } else {
                        assert(mid.contains_key(k));
                        assert(self.way_nodes@[k] == mid[k]);
                        if !(old(self).way_nodes@.contains_key(k) && mid[k] == old(self).way_nodes@[k]) {
                            let j = choose|j: int|
                                0 <= j < pre.len() && way_kept(*f, refs, #[trigger] pre[j]) && (pre[j] matches Element::Way(w)
                                    && w.id == k && mid[k]@ == w.nodes@);
                            assert(post[j] == pre[j]);
                        }
                    }
                }
            }
            i = i + 1;
        }
        assert(batch@.subrange(0, batch@.len() as int) =~= batch@);
    }

    /// The node pass over a batch of elements, after the way pass.
    pub fn node_pass(&mut self, f: &TagFilter, batch: &Vec<Element>)
        ensures
            final(self).node_ids@ == old(self).node_ids@.union(
                union_over(batch@, node_ids_g(*f, old(self).way_node_ids@.union(old(self).role_nodes@))),
            ),
            coord_map_from(
                old(self).node_coords@,
                final(self).node_coords@,
                *f,
                old(self).way_node_ids@.union(old(self).role_nodes@),
                batch@,
            ),
            final(self).relation_ids == old(self).relation_ids,
            final(self).way_refs == old(self).way_refs,
            final(self).role_nodes == old(self).role_nodes,
            final(self).relations == old(self).relations,
            final(self).way_ids == old(self).way_ids,
            final(self).way_node_ids == old(self).way_node_ids,
            final(self).way_nodes == old(self).way_nodes,
    {
        let ghost wanted = old(self).way_node_ids@.union(old(self).role_nodes@);
        let mut i: usize = 0;
        proof {
            lemma_union_over_empty(node_ids_g(*f, wanted));
            assert(batch@.subrange(0, 0) =~= Seq::<Element>::empty());
            assert(old(self).node_ids@.union(Set::empty()) =~= old(self).node_ids@);
            assert(old(self).node_coords@.dom().union(Set::empty()) =~= old(self).node_coords@.dom());
        }
        while i < batch.len()
            invariant
                i <= batch@.len(),
                self.node_ids@ == old(self).node_ids@.union(union_over(batch@.subrange(0, i as int), node_ids_g(*f, wanted))),
                coord_map_from(old(self).node_coords@, self.node_coords@, *f, wanted, batch@.subrange(0, i as int)),
                wanted == self.way_node_ids@.union(self.role_nodes@),
                self.relation_ids == old(self).relation_ids,
                self.way_refs == old(self).way_refs,
                self.role_nodes == old(self).role_nodes,
                self.relations == old(self).relations,
                self.way_ids == old(self).way_ids,
                self.way_node_ids == old(self).way_node_ids,
                self.way_nodes == old(self).way_nodes,
            decreases batch@.len() - i,
        {
            let ghost pre = batch@.subrange(0, i as int);
            let ghost post = batch@.subrange(0, i + 1);
            let ghost e = batch@[i as int];
            let ghost mid = self.node_coords@;
            self.observe_node(f, &batch[i]);
            proof {
                assert(post =~= pre.push(e));
                lemma_union_over_push(pre, e, node_ids_g(*f, wanted));
                assert(self.node_ids@ =~= old(self).node_ids@.union(union_over(post, node_ids_g(*f, wanted))));
                assert(self.node_coords@.dom() =~= old(self).node_coords@.dom().union(union_over(post, node_ids_g(*f, wanted))));
                assert forall|k: i64| #[trigger] self.node_coords@.contains_key(k) implies (old(self).node_coords@.contains_key(k)
                    && self.node_coords@[k] == old(self).node_coords@[k]) || exists|j: int|
                    0 <= j < post.len() && node_kept(*f, wanted, #[trigger] post[j]) && (post[j] matches Element::Node(n)
                        && n.id == k && self.node_coords@[k] == n.coord) by {
                    if node_kept(*f, wanted, e) && (e matches Element::Node(n) && n.id == k) {
                        assert(post[i as int] == e);
                    } else {
                        assert(mid.contains_key(k));
                        assert(self.node_coords@[k] == mid[k]);
                        if !(old(self).node_coords@.contains_key(k) && mid[k] == old(self).node_coords@[k]) {
                            let j = choose|j: int|
                                0 <= j < pre.len() && node_kept(*f, wanted, #[trigger] pre[j]) && (pre[j] matches Element::Node(n)
                                    && n.id == k && mid[k] == n.coord);
                            assert(post[j] == pre[j]);
                        }
                    }
                }
            }
            i = i + 1;
        }
        assert(batch@.subrange(0, batch@.len() as int) =~= batch@);
    }


    /// Whether the compaction writer forwards an element of this kind and id.
    pub fn keeps_id(&self, kind: MemberKind, id: i64) -> (r: bool)
        ensures
            r == match kind {
                MemberKind::Relation => self.relation_ids@.contains(id),
                MemberKind::Way => self.way_ids@.contains(id),
                MemberKind::Node => self.node_ids@.contains(id),
            },
    {
        match kind {
            MemberKind::Relation => self.relation_ids.contains(&id),
            MemberKind::Way => self.way_ids.contains(&id),
            MemberKind::Node => self.node_ids.contains(&id),
        }
    }

    /// Whether the compaction writer forwards `e`: its id is kept at its level.
    pub fn keeps(&self, e: &Element) -> (r: bool)
        ensures
            r == retained(self.relation_ids@, self.way_ids@, self.node_ids@, *e),
    {
        match e {
            Element::Relation(r) => self.keeps_id(MemberKind::Relation, r.id),
            Element::Way(w) => self.keeps_id(MemberKind::Way, w.id),
            Element::Node(n) => self.keeps_id(MemberKind::Node, n.id),
        }
    }

}

/// Whether an element's id is in the kept set of its level.
pub open spec fn retained(rels: Set<i64>, ways: Set<i64>, nodes: Set<i64>, e: Element) -> bool {
    match e {
        Element::Relation(r) => rels.contains(r.id),
        Element::Way(w) => ways.contains(w.id),
        Element::Node(n) => nodes.contains(n.id),
    }
}

/// The elements of `s` that are retained, in order.
pub open spec fn kept_elements(rels: Set<i64>, ways: Set<i64>, nodes: Set<i64>, s: Seq<Element>) -> Seq<Element>
    decreases s.len(),
{
    if s.len() == 0 {
        Seq::empty()
    } else {
        let prev = kept_elements(rels, ways, nodes, s.drop_last());
        if retained(rels, ways, nodes, s.last()) {
            prev.push(s.last())
        } else {
            prev
        }
    }
}

/// What the compaction writer emits for stream `s`.
pub open spec fn compacted(f: TagFilter, roles: Seq<String>, s: Seq<Element>) -> Seq<Element> {
    kept_elements(closure_relations(f, s), closure_ways(f, s), closure_nodes(f, roles, s), s)
}

/// Computes the closure of a whole stream: its relation, way and node passes.
pub fn compute_closure(f: &TagFilter, roles: &Vec<String>, elements: &Vec<Element>) -> (c: Closure)
    ensures
        c.relation_ids@ == closure_relations(*f, elements@),
        c.way_refs@ == closure_way_refs(*f, elements@),
        c.role_nodes@ == closure_role_nodes(*f, roles@, elements@),
        c.relations@.map_values(|r: Relation| relation_view(r)) == kept_relation_views(*f, elements@),
        c.way_ids@ == closure_ways(*f, elements@),
        c.way_node_ids@ == closure_way_nodes(*f, elements@),
        way_map_from(Map::empty(), c.way_nodes@, *f, closure_way_refs(*f, elements@), elements@),
        c.node_ids@ == closure_nodes(*f, roles@, elements@),
        coord_map_from(Map::empty(), c.node_coords@, *f, closure_wanted_nodes(*f, roles@, elements@), elements@),
{
    let mut c = Closure::new();
    c.relation_pass(f, roles, elements);
    c.way_pass(f, elements);
    c.node_pass(f, elements);
    let ghost s = elements@;
    assert(c.relation_ids@ =~= closure_relations(*f, s));
    assert(c.way_refs@ =~= closure_way_refs(*f, s));
    assert(c.role_nodes@ =~= closure_role_nodes(*f, roles@, s));
    assert(Seq::<(i64, Seq<Member>, Seq<Tag>)>::empty() + kept_relation_views(*f, s) =~= kept_relation_views(*f, s));
    assert(Seq::<Relation>::empty().map_values(|r: Relation| relation_view(r)) =~= Seq::<(i64, Seq<Member>, Seq<Tag>)>::empty());
    assert(c.way_ids@ =~= closure_ways(*f, s));
    assert(c.way_node_ids@ =~= closure_way_nodes(*f, s));
    assert(c.node_ids@ =~= closure_nodes(*f, roles@, s));
    c
}

proof fn lemma_kept_elements(rels: Set<i64>, ways: Set<i64>, nodes: Set<i64>, s: Seq<Element>)
    ensures
        forall|j: int|
            0 <= j < kept_elements(rels, ways, nodes, s).len() ==> s.contains(
                #[trigger] kept_elements(rels, ways, nodes, s)[j],
            ) && retained(rels, ways, nodes, kept_elements(rels, ways, nodes, s)[j]),
        forall|i: int|
            0 <= i < s.len() && retained(rels, ways, nodes, #[trigger] s[i]) ==> kept_elements(
                rels,
                ways,
                nodes,
                s,
            ).contains(s[i]),
    decreases s.len(),
{
    if s.len() > 0 {
        let p = s.drop_last();
        lemma_kept_elements(rels, ways, nodes, p);
        let kp = kept_elements(rels, ways, nodes, p);
        let k = kept_elements(rels, ways, nodes, s);
        assert forall|j: int| 0 <= j < k.len() implies s.contains(#[trigger] k[j]) && retained(rels, ways, nodes, k[j]) by {
            if j < kp.len() {
                assert(k[j] == kp[j]);
                assert(p.contains(kp[j]));
                let i = choose|i: int| 0 <= i < p.len() && p[i] == kp[j];
                assert(s[i] == p[i]);
            } else {
                assert(k[j] == s[s.len() - 1]);
            }
        }
        assert forall|i: int| 0 <= i < s.len() && retained(rels, ways, nodes, #[trigger] s[i]) implies k.contains(s[i]) by {
            if i < p.len() {
                assert(p[i] == s[i]);
                assert(retained(rels, ways, nodes, p[i]));
                assert(kp.contains(p[i]));
                let j = choose|j: int| 0 <= j < kp.len() && kp[j] == p[i];
                assert(k[j] == kp[j]);
            } else {
                assert(k[kp.len() as int] == s[i]);
            }
        }
    }
}

proof fn lemma_union_over_same(s: Seq<Element>, t: Seq<Element>, g: spec_fn(Element) -> Set<i64>)
    requires
        forall|j: int| #![trigger t[j]] 0 <= j < t.len() ==> exists|i: int| 0 <= i < s.len() && t[j] == #[trigger] s[i],
        forall|i: int, x: i64|
            0 <= i < s.len() && #[trigger] g(s[i]).contains(x) ==> exists|j: int| 0 <= j < t.len() && t[j] == s[i],
    ensures
        union_over(t, g) == union_over(s, g),
{
    assert forall|x: i64| #[trigger] union_over(t, g).contains(x) implies union_over(s, g).contains(x) by {
        let j = choose|j: int| 0 <= j < t.len() && #[trigger] g(t[j]).contains(x);
        let i = choose|i: int| 0 <= i < s.len() && t[j] == #[trigger] s[i];
        assert(g(s[i]).contains(x));
    }
    assert forall|x: i64| #[trigger] union_over(s, g).contains(x) implies union_over(t, g).contains(x) by {
        let i = choose|i: int| 0 <= i < s.len() && #[trigger] g(s[i]).contains(x);
        let j = choose|j: int| 0 <= j < t.len() && t[j] == s[i];
        assert(g(t[j]).contains(x));
    }
    assert(union_over(t, g) =~= union_over(s, g));
}

/// Compaction is idempotent: the closure of the compacted stream keeps
/// exactly the ids that the closure of the input stream kept, so a
/// second run over the compacted dataset gives identical kept-id sets.
pub proof fn lemma_compaction_idempotent(f: TagFilter, roles: Seq<String>, s: Seq<Element>)
    ensures
        closure_relations(f, compacted(f, roles, s)) == closure_relations(f, s),
        closure_way_refs(f, compacted(f, roles, s)) == closure_way_refs(f, s),
        closure_role_nodes(f, roles, compacted(f, roles, s)) == closure_role_nodes(f, roles, s),
        closure_ways(f, compacted(f, roles, s)) == closure_ways(f, s),
        closure_way_nodes(f, compacted(f, roles, s)) == closure_way_nodes(f, s),
        closure_nodes(f, roles, compacted(f, roles, s)) == closure_nodes(f, roles, s),
{
    let rels = closure_relations(f, s);
    let ways = closure_ways(f, s);
    let nodes = closure_nodes(f, roles, s);
    let t = compacted(f, roles, s);
    lemma_kept_elements(rels, ways, nodes, s);
    assert forall|j: int| #![trigger t[j]] 0 <= j < t.len() implies exists|i: int| 0 <= i < s.len() && t[j] == #[trigger] s[i] by {
        assert(s.contains(t[j]));
    }
    // a kept relation is retained
    assert forall|i: int| 0 <= i < s.len() && (s[i] matches Element::Relation(r) && admits(f, r.tags@)) implies
        #[trigger] retained(rels, ways, nodes, s[i]) by {
        if let Element::Relation(r) = s[i] {
            assert(relation_ids_g(f)(s[i]).contains(r.id));
        }
    }
    let refs = closure_way_refs(f, s);
    assert forall|i: int| 0 <= i < s.len() && way_kept(f, refs, s[i]) implies #[trigger] retained(rels, ways, nodes, s[i]) by {
        if let Element::Way(w) = s[i] {
            assert(way_ids_g(f, refs)(s[i]).contains(w.id));
        }
    }
    let wanted = closure_wanted_nodes(f, roles, s);
    assert forall|i: int| 0 <= i < s.len() && node_kept(f, wanted, s[i]) implies #[trigger] retained(rels, ways, nodes, s[i]) by {
        if let Element::Node(n) = s[i] {
            assert(node_ids_g(f, wanted)(s[i]).contains(n.id));
        }
    }
    assert forall|i: int, x: i64| 0 <= i < s.len() && #[trigger] relation_ids_g(f)(s[i]).contains(x) implies exists|j: int|
        0 <= j < t.len() && t[j] == s[i] by {
        assert(retained(rels, ways, nodes, s[i]));
        assert(t.contains(s[i]));
    }
    lemma_union_over_same(s, t, relation_ids_g(f));
    assert forall|i: int, x: i64| 0 <= i < s.len() && #[trigger] way_refs_g(f)(s[i]).contains(x) implies exists|j: int|
        0 <= j < t.len() && t[j] == s[i] by {
        assert(retained(rels, ways, nodes, s[i]));
        assert(t.contains(s[i]));
    }
    lemma_union_over_same(s, t, way_refs_g(f));
    assert forall|i: int, x: i64| 0 <= i < s.len() && #[trigger] role_nodes_g(f, roles)(s[i]).contains(x) implies exists|j: int|
        0 <= j < t.len() && t[j] == s[i] by {
        assert(retained(rels, ways, nodes, s[i]));
        assert(t.contains(s[i]));
    }
    lemma_union_over_same(s, t, role_nodes_g(f, roles));
    assert(closure_way_refs(f, t) == refs);
    assert forall|i: int, x: i64| 0 <= i < s.len() && #[trigger] way_ids_g(f, refs)(s[i]).contains(x) implies exists|j: int|
        0 <= j < t.len() && t[j] == s[i] by {
        assert(retained(rels, ways, nodes, s[i]));
        assert(t.contains(s[i]));
    }
    lemma_union_over_same(s, t, way_ids_g(f, refs));
    assert forall|i: int, x: i64| 0 <= i < s.len() && #[trigger] way_nodes_g(f, refs)(s[i]).contains(x) implies exists|j: int|
        0 <= j < t.len() && t[j] == s[i] by {
        assert(retained(rels, ways, nodes, s[i]));
        assert(t.contains(s[i]));
    }
    lemma_union_over_same(s, t, way_nodes_g(f, refs));
    assert(closure_wanted_nodes(f, roles, t) == wanted);
    assert forall|i: int, x: i64| 0 <= i < s.len() && #[trigger] node_ids_g(f, wanted)(s[i]).contains(x) implies exists|j: int|
        0 <= j < t.len() && t[j] == s[i] by {
        assert(retained(rels, ways, nodes, s[i]));
        assert(t.contains(s[i]));
    }
    lemma_union_over_same(s, t, node_ids_g(f, wanted));
}

/// The `k`-th node id of a way.
pub open spec fn way_node_at(e: Element, k: int) -> Option<i64> {
    match e {
        Element::Way(w) => if 0 <= k < w.nodes@.len() {
            Some(w.nodes@[k])
        } else {
            None
        },
        _ => None,
    }
}

/// The id of the `m`-th member of a relation, if that member is a way.
pub open spec fn way_member_at(e: Element, m: int) -> Option<i64> {
    match e {
        Element::Relation(r) => if 0 <= m < r.members@.len() && r.members@[m].kind == MemberKind::Way {
            Some(r.members@[m].id)
        } else {
            None
        },
        _ => None,
    }
}

/// Whether `e` is a node with this id.
pub open spec fn is_node_with(e: Element, id: i64) -> bool {
    e matches Element::Node(n) && n.id == id
}

/// Whether `e` is a way with this id.
pub open spec fn is_way_with(e: Element, id: i64) -> bool {
    e matches Element::Way(w) && w.id == id
}

/// Whether every node id of every way, and every way member of every
/// relation, names an element present in `s`.
pub open spec fn referentially_complete(s: Seq<Element>) -> bool {
    &&& forall|i: int, k: int|
        0 <= i < s.len() && (#[trigger] way_node_at(s[i], k)) is Some ==> exists|j: int|
            0 <= j < s.len() && #[trigger] is_node_with(s[j], way_node_at(s[i], k)->0)
    &&& forall|i: int, m: int|
        0 <= i < s.len() && (#[trigger] way_member_at(s[i], m)) is Some ==> exists|j: int|
            0 <= j < s.len() && #[trigger] is_way_with(s[j], way_member_at(s[i], m)->0)
}

/// Closure completeness: on a dataset where every reference resolves, every
/// node id of a kept way is a kept node id, and every way id referenced by
/// a kept relation is a kept way id.
pub proof fn lemma_closure_complete(f: TagFilter, roles: Seq<String>, s: Seq<Element>)
    requires
        referentially_complete(s),
    ensures
        closure_way_nodes(f, s).subset_of(closure_nodes(f, roles, s)),
        closure_way_refs(f, s).subset_of(closure_ways(f, s)),
{
    let refs = closure_way_refs(f, s);
    let wanted = closure_wanted_nodes(f, roles, s);
    assert forall|x: i64| #[trigger] closure_way_nodes(f, s).contains(x) implies closure_nodes(f, roles, s).contains(x) by {
        let i = choose|i: int| 0 <= i < s.len() && #[trigger] way_nodes_g(f, refs)(s[i]).contains(x);
        if let Element::Way(w) = s[i] {
            assert(w.nodes@.to_set().contains(x));
            let k = choose|k: int| 0 <= k < w.nodes@.len() && w.nodes@[k] == x;
            assert(way_node_at(s[i], k) == Some(x));
            let j = choose|j: int| 0 <= j < s.len() && #[trigger] is_node_with(s[j], x);
            assert(wanted.contains(x));
            assert(node_ids_g(f, wanted)(s[j]).contains(x));
        }
    }
    assert forall|x: i64| #[trigger] refs.contains(x) implies closure_ways(f, s).contains(x) by {
        let i = choose|i: int| 0 <= i < s.len() && #[trigger] way_refs_g(f)(s[i]).contains(x);
        if let Element::Relation(r) = s[i] {
            let m = choose|m: int| 0 <= m < r.members@.len() && #[trigger] r.members@[m].kind == MemberKind::Way && r.members@[m].id == x;
            assert(way_member_at(s[i], m) == Some(x));
            let j = choose|j: int| 0 <= j < s.len() && #[trigger] is_way_with(s[j], x);
            assert(way_ids_g(f, refs)(s[j]).contains(x));
        }
    }
}

/// A kept relation with the vertices of its way fragments.
pub struct RelationNodes {
    pub relation: Relation,
    pub nodes: Vec<Vec<Vertex>>,
}

/// The admin level of a relation for range selection: its `admin_level`
/// read as a number up to 255, else 255.
pub open spec fn level_or_max(tags: Seq<Tag>) -> int {
    match tag_value(tags, "admin_level"@) {
        Some(v) => match population_value(v) {
            Some(x) => if x <= 255 {
                x as int
            } else {
                255
            },
            None => 255,
        },
        None => 255,
    }
}

/// Whether a relation is selected for extraction: a city or town, or an
/// administrative boundary whose level lies in `min_admin..=max_admin`.
pub open spec fn selected(tags: Seq<Tag>, min_admin: u8, max_admin: u8) -> bool {
    ||| tag_value(tags, "place"@) == Some("city"@)
    ||| tag_value(tags, "place"@) == Some("town"@)
    ||| (tag_value(tags, "boundary"@) == Some("administrative"@) && min_admin <= level_or_max(tags)
        <= max_admin)
}

/// Whether a relation with these tags is selected for extraction.
pub fn in_admin_range(tags: &Vec<Tag>, min_admin: u8, max_admin: u8) -> (r: bool)
    ensures
        r == selected(tags@, min_admin, max_admin),
{
    let city = "city".to_owned();
    let town = "town".to_owned();
    match get_tag(tags, &"place".to_owned()) {
        Some(v) => {
            if v == city || v == town {
                return true;
            }
        },
        None => {},
    }
    let admin = match get_tag(tags, &"boundary".to_owned()) {
        Some(v) => v == "administrative".to_owned(),
        None => false,
    };
    if !admin {
        return false;
    }
    let level: u64 = match get_tag(tags, &"admin_level".to_owned()) {
        Some(v) => match parse_population(&v) {
            Some(x) => if x <= 255 {
                x
            } else {
                255
            },
            None => 255,
        },
        None => 255,
    };
    min_admin as u64 <= level && level <= max_admin as u64
}

/// The relation records of `recs` that are selected, in order.
pub open spec fn selected_records(recs: Seq<Relation>, min_admin: u8, max_admin: u8) -> Seq<Relation>
    decreases recs.len(),
{
    if recs.len() == 0 {
        Seq::empty()
    } else {
        let prev = selected_records(recs.drop_last(), min_admin, max_admin);
        if selected(recs.last().tags@, min_admin, max_admin) {
            prev.push(recs.last())
        } else {
            prev
        }
    }
}

/// Whether `rn` holds record `rec` with its fragments resolved through the
/// maps of `c`.
pub open spec fn resolved_record(rn: RelationNodes, rec: Relation, c: Closure) -> bool {
    &&& relation_view(rn.relation) == relation_view(rec)
    &&& rn.nodes@.map_values(|f: Vec<Vertex>| f@) == relation_fragments_of(rec.members@, c.way_nodes@, c.node_coords@)
}

/// Each kept relation of a finished closure, in order, with its way
/// fragments resolved through the closure's way and node maps.
pub fn relation_nodes(c: &Closure) -> (r: Vec<RelationNodes>)
    ensures
        r@.len() == c.relations@.len(),
        forall|q: int| 0 <= q < r@.len() ==> #[trigger] resolved_record(r@[q], c.relations@[q], *c),
{
    let mut r: Vec<RelationNodes> = Vec::new();
    let mut k: usize = 0;
    while k < c.relations.len()
        invariant
            k <= c.relations@.len(),
            r@.len() == k,
            forall|q: int| 0 <= q < k ==> #[trigger] resolved_record(r@[q], c.relations@[q], *c),
        decreases c.relations@.len() - k,
    {
        let rel = &c.relations[k];
        let nodes = relation_fragments(&rel.members, &c.way_nodes, &c.node_coords);
        let relation = Relation { id: rel.id, members: copy_members(&rel.members), tags: copy_tags(&rel.tags) };
        r.push(RelationNodes { relation, nodes });
        k = k + 1;
    }
    r
}

/// Each selected relation of a finished closure, in order, with its way
/// fragments resolved through the closure's way and node maps.
pub fn read_ways_and_relation(c: &Closure, min_admin: u8, max_admin: u8) -> (r: Vec<RelationNodes>)
    ensures
        r@.len() == selected_records(c.relations@, min_admin, max_admin).len(),
        forall|q: int|
            0 <= q < r@.len() ==> #[trigger] resolved_record(
                r@[q],
                selected_records(c.relations@, min_admin, max_admin)[q],
                *c,
            ),
{
    let mut r: Vec<RelationNodes> = Vec::new();
    let mut k: usize = 0;
    while k < c.relations.len()
        invariant
            k <= c.relations@.len(),
            r@.len() == selected_records(c.relations@.subrange(0, k as int), min_admin, max_admin).len(),
            forall|q: int|
                0 <= q < r@.len() ==> #[trigger] resolved_record(
                    r@[q],
                    selected_records(c.relations@.subrange(0, k as int), min_admin, max_admin)[q],
                    *c,
                ),
        decreases c.relations@.len() - k,
    {
        let ghost pre = c.relations@.subrange(0, k as int);
        let ghost post = c.relations@.subrange(0, k + 1);
        assert(post.drop_last() =~= pre);
        assert(post.last() == c.relations@[k as int]);
        let rel = &c.relations[k];
        if in_admin_range(&rel.tags, min_admin, max_admin) {
            let nodes = relation_fragments(&rel.members, &c.way_nodes, &c.node_coords);
            let relation = Relation { id: rel.id, members: copy_members(&rel.members), tags: copy_tags(&rel.tags) };
            let ghost before = r@;
            r.push(RelationNodes { relation, nodes });
            proof {
                let sp = selected_records(post, min_admin, max_admin);
                assert(sp == selected_records(pre, min_admin, max_admin).push(*rel));
                assert forall|q: int| 0 <= q < r@.len() implies #[trigger] resolved_record(r@[q], sp[q], *c) by {
                    if q < before.len() {
                        assert(r@[q] == before[q]);
                    }
                }
            }
        }
        k = k + 1;
    }
    assert(c.relations@.subrange(0, k as int) =~= c.relations@);
    assert(selected_records(c.relations@.subrange(0, k as int), min_admin, max_admin) == selected_records(
        c.relations@,
        min_admin,
        max_admin,
    ));
    r
}

/// Whether relation `r` has way `way_id` as a member and bears the name `name`.
pub open spec fn shadows(r: Relation, way_id: i64, name: Seq<char>) -> bool {
    tag_value(r.tags@, "name"@) == Some(name) && member_ids(r.members@, MemberKind::Way).contains(way_id)
}

/// Whether some relation of `relations` has the way as a member and the
/// same name: such a way is described by the relation and not on its own.
pub fn shadowed_by_relation(way_id: i64, name: &String, relations: &Vec<Relation>) -> (r: bool)
    ensures
        r == exists|k: int| 0 <= k < relations@.len() && #[trigger] shadows(relations@[k], way_id, name@),
{
    let key = "name".to_owned();
    let mut k: usize = 0;
    while k < relations.len()
        invariant
            k <= relations@.len(),
            key@ == "name"@,
            forall|q: int| 0 <= q < k ==> !#[trigger] shadows(relations@[q], way_id, name@),
        decreases relations@.len() - k,
    {
        let same_name = match get_tag(&relations[k].tags, &key) {
            Some(v) => v == *name,
            None => false,
        };
        if same_name {
            let ms = &relations[k].members;
            let mut m: usize = 0;
            while m < ms.len()
                invariant
                    m <= ms@.len(),
                    k < relations@.len(),
                    *ms == relations@[k as int].members,
                    tag_value(relations@[k as int].tags@, "name"@) == Some(name@),
                    forall|j: int| 0 <= j < m ==> !(#[trigger] ms@[j].kind == MemberKind::Way && ms@[j].id == way_id),
                decreases ms@.len() - m,
            {
                if ms[m].kind == MemberKind::Way && ms[m].id == way_id {
                    assert(member_ids(ms@, MemberKind::Way).contains(way_id));
                    assert(shadows(relations@[k as int], way_id, name@));
                    return true;
                }
                m = m + 1;
            }
            assert(!member_ids(ms@, MemberKind::Way).contains(way_id));
        }
        k = k + 1;
    }
    false
}

/// The id of the first node member of `r` that is in `nodes`.
pub fn source_member(r: &Relation, nodes: &HashSet<i64>) -> (res: Option<i64>)
    ensures
        match res {
            Some(id) => exists|k: int|
                0 <= k < r.members@.len() && r.members@[k].kind == MemberKind::Node && r.members@[k].id == id
                    && nodes@.contains(id) && forall|j: int|
                    0 <= j < k ==> !(#[trigger] r.members@[j].kind == MemberKind::Node && nodes@.contains(
                        r.members@[j].id,
                    )),
            None => forall|j: int|
                0 <= j < r.members@.len() ==> !(#[trigger] r.members@[j].kind == MemberKind::Node
                    && nodes@.contains(r.members@[j].id)),
        },
{
    let mut k: usize = 0;
    while k < r.members.len()
        invariant
            k <= r.members@.len(),
            forall|j: int|
                0 <= j < k ==> !(#[trigger] r.members@[j].kind == MemberKind::Node && nodes@.contains(
                    r.members@[j].id,
                )),
        decreases r.members@.len() - k,
    {
        if r.members[k].kind == MemberKind::Node && nodes.contains(&r.members[k].id) {
            return Some(r.members[k].id);
        }
        k = k + 1;
    }
    None
}

} // verus!
