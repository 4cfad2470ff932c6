//! Ring assembly: stitching way fragments of one relation into maximal
//! paths by matching end node ids.
use crate::model::Coord;
use vstd::prelude::*;
use vstd::multiset::Multiset;

verus! {

/// A node of a way fragment: its id and its position.
#[derive(Clone, Copy, Debug, PartialEq, Eq, Structural)]
pub struct Vertex {
    pub id: i64,
    pub coord: Coord,
}

/// The node ids of a vertex sequence.
pub open spec fn ids(s: Seq<Vertex>) -> Seq<i64> {
    s.map_values(|v: Vertex| v.id)
}

/// An undirected edge between two node ids, in a canonical order.
pub open spec fn undirected(a: i64, b: i64) -> (i64, i64) {
    if a <= b {
        (a, b)
    } else {
        (b, a)
    }
}

/// The undirected edges between consecutive ids of `s`.
pub open spec fn edge_bag(s: Seq<i64>) -> Multiset<(i64, i64)>
    decreases s.len(),
{
    if s.len() < 2 {
        Multiset::empty()
    } else {
        edge_bag(s.drop_last()).insert(undirected(s[s.len() - 2], s[s.len() - 1]))
    }
}

/// The edges of all fragments together.
pub open spec fn fragments_edge_bag(fs: Seq<Vec<Vertex>>) -> Multiset<(i64, i64)>
    decreases fs.len(),
{
    if fs.len() == 0 {
        Multiset::empty()
    } else {
        fragments_edge_bag(fs.drop_last()).add(edge_bag(ids(fs.last()@)))
    }
}

/// Whether fragment `f` starts or ends at node `id`.
pub open spec fn touches(f: Seq<Vertex>, id: i64) -> bool {
    f.len() > 0 && (f[0].id == id || f.last().id == id)
}

/// Fragment `f` turned, if needed, so that it starts at `id`.
pub open spec fn oriented(f: Seq<Vertex>, id: i64) -> Seq<Vertex> {
    if f[0].id == id {
        f
    } else {
        f.reverse()
    }
}

/// Whether `p` begins or ends at node `id`.
pub open spec fn path_end(p: Seq<Vertex>, id: i64) -> bool {
    p.len() > 0 && (p[0].id == id || p.last().id == id)
}

/// Whether neither end of path `q` is an end of path `p`.
pub open spec fn ends_apart(p: Seq<Vertex>, q: Seq<Vertex>) -> bool {
    !path_end(p, q[0].id) && !path_end(p, q.last().id)
}

/// Whether fragment `f` touches neither end of path `p`.
pub open spec fn clear_of(f: Seq<Vertex>, p: Seq<Vertex>) -> bool {
    !touches(f, p[0].id) && !touches(f, p.last().id)
}

/// Whether `id` is an end of some fragment of `fs`.
pub open spec fn is_fragment_end(fs: Seq<Vec<Vertex>>, id: i64) -> bool {
    exists|k: int| 0 <= k < fs.len() && #[trigger] touches(fs[k]@, id)
}

proof fn lemma_edge_bag_concat(p: Seq<i64>, q: Seq<i64>)
    requires
        p.len() >= 1,
        q.len() >= 1,
        p.last() == q[0],
    ensures
        edge_bag(p + q.drop_first()) == edge_bag(p).add(edge_bag(q)),
    decreases q.len(),
{
    if q.len() == 1 {
        assert(p + q.drop_first() =~= p);
        assert(edge_bag(p).add(Multiset::empty()) =~= edge_bag(p));
    } else {
        let q1 = q.drop_last();
        lemma_edge_bag_concat(p, q1);
        let s = p + q.drop_first();
        assert(s.drop_last() =~= p + q1.drop_first());
        assert(s[s.len() - 2] == q[q.len() - 2]);
        assert(edge_bag(q).add(edge_bag(p)) =~= edge_bag(q1).add(edge_bag(p)).insert(
            undirected(q[q.len() - 2], q[q.len() - 1]),
        ));
        assert(edge_bag(p).add(edge_bag(q)) =~= edge_bag(q).add(edge_bag(p)));
        assert(edge_bag(p).add(edge_bag(q1)) =~= edge_bag(q1).add(edge_bag(p)));
    }
}

proof fn lemma_edge_bag_reverse(s: Seq<i64>)
    ensures
        edge_bag(s.reverse()) == edge_bag(s),
    decreases s.len(),
{
    if s.len() >= 2 {
        let s1 = s.drop_last();
        lemma_edge_bag_reverse(s1);
        let x = s.last();
        let r = s.reverse();
        let two = seq![x, s1.last()];
        assert(r =~= two + s1.reverse().drop_first());
        lemma_edge_bag_concat(two, s1.reverse());
        assert(two.drop_last() =~= seq![x]);
        assert(edge_bag(seq![x]) == Multiset::<(i64, i64)>::empty());
        assert(edge_bag(two) =~= Multiset::<(i64, i64)>::empty().insert(undirected(x, s1.last())));
        assert(undirected(x, s1.last()) == undirected(s[s.len() - 2], s[s.len() - 1]));
        assert(edge_bag(s) =~= edge_bag(two).add(edge_bag(s1)));
    } else if s.len() == 1 {
        assert(s.reverse() =~= s);
    } else {
        assert(s.reverse() =~= s);
    }
}

proof fn lemma_ids_reverse(s: Seq<Vertex>)
    ensures
        ids(s.reverse()) == ids(s).reverse(),
        edge_bag(ids(s.reverse())) == edge_bag(ids(s)),
{
    assert(ids(s.reverse()) =~= ids(s).reverse());
    lemma_edge_bag_reverse(ids(s));
}

/// `s` without its element `i`, the last element taking its place (what
/// `Vec::swap_remove` leaves).
pub open spec fn swap_removed<A>(s: Seq<A>, i: int) -> Seq<A> {
    s.update(i, s.last()).drop_last()
}

proof fn lemma_fragments_update(t: Seq<Vec<Vertex>>, i: int, y: Vec<Vertex>)
    requires
        0 <= i < t.len(),
    ensures
        fragments_edge_bag(t.update(i, y)).add(edge_bag(ids(t[i]@))) == fragments_edge_bag(t).add(
            edge_bag(ids(y@)),
        ),
    decreases t.len(),
{
    let u = t.update(i, y);
    if i == t.len() - 1 {
        assert(u.drop_last() =~= t.drop_last());
        let a = fragments_edge_bag(t.drop_last());
        assert(a.add(edge_bag(ids(y@))).add(edge_bag(ids(t[i]@))) =~= a.add(edge_bag(ids(t[i]@))).add(
            edge_bag(ids(y@)),
        ));
    } else {
        let t1 = t.drop_last();
        lemma_fragments_update(t1, i, y);
        assert(u.drop_last() =~= t1.update(i, y));
        let a = fragments_edge_bag(t1.update(i, y));
        let c = edge_bag(ids(t.last()@));
        let b = edge_bag(ids(t[i]@));
        let e = edge_bag(ids(y@));
        assert(a.add(c).add(b) =~= a.add(b).add(c));
        assert(fragments_edge_bag(t1).add(e).add(c) =~= fragments_edge_bag(t1).add(c).add(e));
    }
}

proof fn lemma_fragments_swap_remove(fs: Seq<Vec<Vertex>>, i: int)
    requires
        0 <= i < fs.len(),
    ensures
        fragments_edge_bag(fs) == fragments_edge_bag(swap_removed(fs, i)).add(edge_bag(ids(fs[i]@))),
{
    let t = fs.drop_last();
    if i == fs.len() - 1 {
        assert(swap_removed(fs, i) =~= t);
    } else {
        assert(swap_removed(fs, i) =~= t.update(i, fs.last()));
        lemma_fragments_update(t, i, fs.last());
    }
}

proof fn lemma_swap_removed_multiset<A>(s: Seq<A>, i: int)
    requires
        0 <= i < s.len(),
    ensures
        s.to_multiset() == swap_removed(s, i).to_multiset().insert(s[i]),
{
    broadcast use vstd::seq_lib::group_to_multiset_ensures;

    let t = s.drop_last();
    assert(s =~= t.push(s.last()));
    vstd::seq_lib::to_multiset_build(t, s.last());
    if i == s.len() - 1 {
        assert(swap_removed(s, i) =~= t);
    } else {
        let r = swap_removed(s, i);
        assert(r =~= t.remove(i).insert(i, s.last()));
        vstd::seq_lib::to_multiset_remove(t, i);
        vstd::seq_lib::to_multiset_insert(t.remove(i), i, s.last());
        assert(t.to_multiset().count(t[i]) > 0);
        assert(r.to_multiset().insert(s[i]) =~= t.to_multiset().insert(s.last()));
    }
}

/// Reversed copy of a fragment.
pub fn reversed(v: &Vec<Vertex>) -> (r: Vec<Vertex>)
    ensures
        r@ == v@.reverse(),
{
    let mut r: Vec<Vertex> = Vec::new();
    let mut i: usize = v.len();
    while i > 0
        invariant
            i <= v@.len(),
            r@ =~= v@.subrange(i as int, v@.len() as int).reverse(),
        decreases i,
    {
        i = i - 1;
        r.push(v[i]);
        assert(r@ =~= v@.subrange(i as int, v@.len() as int).reverse());
    }
    assert(v@.subrange(0, v@.len() as int) =~= v@);
    r
}

/// `a` followed by `b` without its first node (the shared junction).
fn splice(a: Vec<Vertex>, b: &Vec<Vertex>) -> (r: Vec<Vertex>)
    requires
        b@.len() > 0,
    ensures
        r@ == a@ + b@.drop_first(),
{
    let mut r = a;
    let mut i: usize = 1;
    while i < b.len()
        invariant
            1 <= i <= b@.len(),
            r@ =~= a@ + b@.subrange(1, i as int),
        decreases b@.len() - i,
    {
        r.push(b[i]);
        i = i + 1;
    }
    assert(b@.subrange(1, b@.len() as int) =~= b@.drop_first());
    r
}

/// Removes and returns the first fragment that starts or ends at `node_id`,
/// turned so that it starts there; empty fragments are passed over.
pub fn find_match(node_id: i64, nodes: &mut Vec<Vec<Vertex>>) -> (r: Option<Vec<Vertex>>)
    ensures
        match r {
            None => {
                &&& final(nodes)@ == old(nodes)@
                &&& forall|k: int| 0 <= k < old(nodes)@.len() ==> !touches(#[trigger] old(nodes)@[k]@, node_id)
            },
            Some(f) => exists|i: int|
                {
                    &&& 0 <= i < old(nodes)@.len()
                    &&& touches(old(nodes)@[i]@, node_id)
                    &&& forall|k: int| 0 <= k < i ==> !touches(#[trigger] old(nodes)@[k]@, node_id)
                    &&& final(nodes)@ == old(nodes)@.update(i, old(nodes)@.last()).drop_last()
                    &&& f@ == oriented(old(nodes)@[i]@, node_id)
                },
        },
{
    let mut i: usize = 0;
    while i < nodes.len()
        invariant
            i <= nodes@.len(),
            nodes@ == old(nodes)@,
            forall|k: int| 0 <= k < i ==> !touches(#[trigger] nodes@[k]@, node_id),
        decreases nodes@.len() - i,
    {
        let n = nodes[i].len();
        if n > 0 {
            if nodes[i][0].id == node_id {
                let result = nodes.swap_remove(i);
                return Some(result);
            } else if nodes[i][n - 1].id == node_id {
                let result = nodes.swap_remove(i);
                let turned = reversed(&result);
                return Some(turned);
            }
        }
        i = i + 1;
    }
    None
}

proof fn lemma_ids_splice(a: Seq<Vertex>, b: Seq<Vertex>)
    requires
        a.len() > 0,
        b.len() > 0,
        a.last().id == b[0].id,
    ensures
        edge_bag(ids(a + b.drop_first())) == edge_bag(ids(a)).add(edge_bag(ids(b))),
{
    assert(ids(a + b.drop_first()) =~= ids(a) + ids(b).drop_first());
    lemma_edge_bag_concat(ids(a), ids(b));
}

/// Fragment `p.0` of `nodes`, reversed when `p.1` holds.
pub open spec fn piece(nodes: Seq<Vec<Vertex>>, p: (int, bool)) -> Seq<Vertex> {
    if p.1 {
        nodes[p.0]@.reverse()
    } else {
        nodes[p.0]@
    }
}

/// The pieces named by `ps`, in order.
pub open spec fn pieces(nodes: Seq<Vec<Vertex>>, ps: Seq<(int, bool)>) -> Seq<Seq<Vertex>> {
    ps.map_values(|p: (int, bool)| piece(nodes, p))
}

/// The pieces joined one after another, each piece after the first without
/// its first vertex (the junction it shares with the previous piece).
pub open spec fn chain(gs: Seq<Seq<Vertex>>) -> Seq<Vertex>
    decreases gs.len(),
{
    if gs.len() == 0 {
        Seq::empty()
    } else if gs.len() == 1 {
        gs[0]
    } else {
        chain(gs.drop_last()) + gs.last().drop_first()
    }
}

/// The fragment indices named by `ps`.
pub open spec fn indices(ps: Seq<(int, bool)>) -> Seq<int> {
    ps.map_values(|p: (int, bool)| p.0)
}

/// The fragment indices of all paths, path after path.
pub open spec fn flat_indices(d: Seq<Seq<(int, bool)>>) -> Seq<int>
    decreases d.len(),
{
    if d.len() == 0 {
        Seq::empty()
    } else {
        flat_indices(d.drop_last()) + indices(d.last())
    }
}

/// The indices below `n` of the non-empty fragments, in order.
pub open spec fn nonempty_indices(nodes: Seq<Vec<Vertex>>, n: int) -> Seq<int>
    decreases n,
{
    if n <= 0 {
        Seq::empty()
    } else if nodes[n - 1]@.len() > 0 {
        nonempty_indices(nodes, n - 1).push(n - 1)
    } else {
        nonempty_indices(nodes, n - 1)
    }
}

/// Whether `path` is the non-empty fragments named by `ps`, each turned as
/// `ps` says, joined where one ends at the node id where the next begins.
pub open spec fn spliced(nodes: Seq<Vec<Vertex>>, ps: Seq<(int, bool)>, path: Seq<Vertex>) -> bool {
    &&& ps.len() > 0
    &&& forall|j: int| 0 <= j < ps.len() ==> 0 <= (#[trigger] ps[j]).0 < nodes.len() && nodes[ps[j].0]@.len() > 0
    &&& forall|j: int|
        0 <= j < ps.len() - 1 ==> piece(nodes, #[trigger] ps[j]).last().id == piece(nodes, ps[j + 1])[0].id
    &&& path == chain(pieces(nodes, ps))
}

/// Whether `d` splits `paths` into the fragments they are made of, every
/// non-empty fragment being used exactly once over all paths.
pub open spec fn decomposes(nodes: Seq<Vec<Vertex>>, paths: Seq<Vec<Vertex>>, d: Seq<Seq<(int, bool)>>) -> bool {
    &&& d.len() == paths.len()
    &&& forall|k: int| 0 <= k < d.len() ==> spliced(nodes, #[trigger] d[k], paths[k]@)
    &&& flat_indices(d).to_multiset() == nonempty_indices(nodes, nodes.len() as int).to_multiset()
}

/// What the assembler guarantees of `paths` built from `fragments`: each
/// path is made of whole input fragments joined at shared end ids, each
/// non-empty fragment used exactly once; the edges are those of the
/// fragments; no path is empty; and no later path begins or ends where an
/// earlier one begins or ends.
pub open spec fn assembles(fragments: Seq<Vec<Vertex>>, paths: Seq<Vec<Vertex>>) -> bool {
    &&& exists|d: Seq<Seq<(int, bool)>>| decomposes(fragments, paths, d)
    &&& fragments_edge_bag(paths) == fragments_edge_bag(fragments)
    &&& forall|i: int| 0 <= i < paths.len() ==> (#[trigger] paths[i]@).len() > 0
    &&& forall|i: int, j: int|
        0 <= i < j < paths.len() ==> #[trigger] ends_apart(paths[i]@, paths[j]@)
}

spec fn all_indices(n: int) -> Seq<int> {
    Seq::new(n as nat, |i: int| i)
}

spec fn used_ok(nodes: Seq<Vec<Vertex>>, s: Seq<int>) -> bool {
    forall|j: int| 0 <= j < s.len() ==> 0 <= #[trigger] s[j] < nodes.len() && nodes[s[j]]@.len() > 0
}

spec fn skipped_ok(nodes: Seq<Vec<Vertex>>, s: Seq<int>) -> bool {
    forall|j: int| 0 <= j < s.len() ==> 0 <= #[trigger] s[j] < nodes.len() && nodes[s[j]]@.len() == 0
}

proof fn lemma_chain_start(gs: Seq<Seq<Vertex>>)
    requires
        gs.len() > 0,
        gs[0].len() > 0,
    ensures
        chain(gs).len() > 0,
        chain(gs)[0] == gs[0][0],
    decreases gs.len(),
{
    if gs.len() > 1 {
        lemma_chain_start(gs.drop_last());
    }
}

proof fn lemma_chain_end(gs: Seq<Seq<Vertex>>)
    requires
        gs.len() > 0,
        forall|j: int| 0 <= j < gs.len() ==> (#[trigger] gs[j]).len() > 0,
        forall|j: int| 0 <= j < gs.len() - 1 ==> (#[trigger] gs[j]).last().id == gs[j + 1][0].id,
    ensures
        chain(gs).len() > 0,
        chain(gs).last().id == gs.last().last().id,
    decreases gs.len(),
{
    lemma_chain_start(gs);
    if gs.len() > 1 {
        let dl = gs.drop_last();
        assert forall|j: int| 0 <= j < dl.len() - 1 implies (#[trigger] dl[j]).last().id == dl[j + 1][0].id by {
            assert(gs[j] == dl[j]);
        }
        lemma_chain_end(dl);
        assert(gs[gs.len() - 2] == dl.last());
    }
}

proof fn lemma_chain_prepend(g: Seq<Vertex>, gs: Seq<Seq<Vertex>>)
    requires
        g.len() > 0,
        gs.len() > 0,
        forall|j: int| 0 <= j < gs.len() ==> (#[trigger] gs[j]).len() > 0,
    ensures
        chain(seq![g] + gs) == g + chain(gs).drop_first(),
    decreases gs.len(),
{
    let h = seq![g] + gs;
    assert(h.last() == gs.last());
    if gs.len() == 1 {
        assert(h.drop_last() =~= seq![g]);
        assert(chain(h) == chain(h.drop_last()) + h.last().drop_first());
        assert(chain(h) =~= g + chain(gs).drop_first());
    } else {
        let dl = gs.drop_last();
        assert(h.drop_last() =~= seq![g] + dl);
        lemma_chain_prepend(g, dl);
        lemma_chain_start(dl);
        assert(dl[0] == gs[0]);
        assert(chain(h) == chain(h.drop_last()) + h.last().drop_first());
        assert(chain(gs) == chain(dl) + gs.last().drop_first());
        assert((chain(dl) + gs.last().drop_first()).drop_first() =~= chain(dl).drop_first() + gs.last().drop_first());
        assert(chain(h) =~= g + chain(gs).drop_first());
    }
}

proof fn lemma_back_step(nodes: Seq<Vec<Vertex>>, ps: Seq<(int, bool)>, path: Seq<Vertex>, p: (int, bool))
    requires
        spliced(nodes, ps, path),
        0 <= p.0 < nodes.len(),
        nodes[p.0]@.len() > 0,
        piece(nodes, p)[0].id == path.last().id,
    ensures
        spliced(nodes, ps.push(p), path + piece(nodes, p).drop_first()),
{
    let gs = pieces(nodes, ps);
    let q = ps.push(p);
    assert(pieces(nodes, q) =~= gs.push(piece(nodes, p)));
    assert(pieces(nodes, q).drop_last() =~= gs);
    assert forall|j: int| 0 <= j < gs.len() implies (#[trigger] gs[j]).len() > 0 by {
        assert(ps[j].0 < nodes.len());
    }
    assert forall|j: int| 0 <= j < gs.len() - 1 implies (#[trigger] gs[j]).last().id == gs[j + 1][0].id by {
        assert(piece(nodes, ps[j]).last().id == piece(nodes, ps[j + 1])[0].id);
    }
    lemma_chain_end(gs);
    assert forall|j: int| 0 <= j < q.len() implies 0 <= (#[trigger] q[j]).0 < nodes.len() && nodes[q[j].0]@.len() > 0 by {
        if j < ps.len() {
            assert(q[j] == ps[j]);
        }
    }
    assert forall|j: int| 0 <= j < q.len() - 1 implies piece(nodes, #[trigger] q[j]).last().id == piece(nodes, q[j + 1])[0].id by {
        assert(q[j] == ps[j]);
        if j < ps.len() - 1 {
            assert(q[j + 1] == ps[j + 1]);
        } else {
            assert(gs.last() == piece(nodes, ps[j]));
        }
    }
}

proof fn lemma_front_step(nodes: Seq<Vec<Vertex>>, ps: Seq<(int, bool)>, path: Seq<Vertex>, p: (int, bool))
    requires
        spliced(nodes, ps, path),
        0 <= p.0 < nodes.len(),
        nodes[p.0]@.len() > 0,
        piece(nodes, p).last().id == path[0].id,
    ensures
        spliced(nodes, seq![p] + ps, piece(nodes, p) + path.drop_first()),
{
    let gs = pieces(nodes, ps);
    let q = seq![p] + ps;
    assert(pieces(nodes, q) =~= seq![piece(nodes, p)] + gs);
    assert forall|j: int| 0 <= j < gs.len() implies (#[trigger] gs[j]).len() > 0 by {
        assert(ps[j].0 < nodes.len());
    }
    lemma_chain_prepend(piece(nodes, p), gs);
    lemma_chain_start(gs);
    assert forall|j: int| 0 <= j < q.len() implies 0 <= (#[trigger] q[j]).0 < nodes.len() && nodes[q[j].0]@.len() > 0 by {
        if j > 0 {
            assert(q[j] == ps[j - 1]);
        }
    }
    assert forall|j: int| 0 <= j < q.len() - 1 implies piece(nodes, #[trigger] q[j]).last().id == piece(nodes, q[j + 1])[0].id by {
        assert(q[j + 1] == ps[j]);
        if j > 0 {
            assert(q[j] == ps[j - 1]);
            assert(piece(nodes, ps[j - 1]).last().id == piece(nodes, ps[j])[0].id);
        } else {
            assert(gs[0] == piece(nodes, ps[0]));
        }
    }
}

proof fn lemma_multiset_concat(a: Seq<int>, b: Seq<int>)
    ensures
        (a + b).to_multiset() == a.to_multiset().add(b.to_multiset()),
    decreases b.len(),
{
    broadcast use vstd::seq_lib::group_to_multiset_ensures;

    if b.len() == 0 {
        assert(a + b =~= a);
        assert(a.to_multiset().add(b.to_multiset()) =~= a.to_multiset());
    } else {
        let b1 = b.drop_last();
        lemma_multiset_concat(a, b1);
        assert(a + b =~= (a + b1).push(b.last()));
        assert(b =~= b1.push(b.last()));
        vstd::seq_lib::to_multiset_build(a + b1, b.last());
        vstd::seq_lib::to_multiset_build(b1, b.last());
        assert((a + b).to_multiset() =~= a.to_multiset().add(b.to_multiset()));
    }
}

proof fn lemma_all_indices_count(n: int)
    requires
        n >= 0,
    ensures
        forall|x: int| #[trigger] all_indices(n).to_multiset().count(x) == if 0 <= x < n {
            1nat
        } else {
            0nat
        },
    decreases n,
{
    broadcast use vstd::seq_lib::group_to_multiset_ensures;

    if n == 0 {
        assert(all_indices(0) =~= Seq::<int>::empty());
    } else {
        lemma_all_indices_count(n - 1);
        assert(all_indices(n) =~= all_indices(n - 1).push(n - 1));
        vstd::seq_lib::to_multiset_build(all_indices(n - 1), n - 1);
    }
}

proof fn lemma_nonempty_indices_count(nodes: Seq<Vec<Vertex>>, n: int)
    requires
        0 <= n <= nodes.len(),
    ensures
        forall|x: int| #[trigger] nonempty_indices(nodes, n).to_multiset().count(x) == if 0 <= x < n
            && nodes[x]@.len() > 0 {
            1nat
        } else {
            0nat
        },
    decreases n,
{
    broadcast use vstd::seq_lib::group_to_multiset_ensures;

    if n == 0 {
        assert(nonempty_indices(nodes, 0) =~= Seq::<int>::empty());
    } else {
        lemma_nonempty_indices_count(nodes, n - 1);
        let prev = nonempty_indices(nodes, n - 1);
        if nodes[n - 1]@.len() > 0 {
            assert(nonempty_indices(nodes, n) == prev.push(n - 1));
            vstd::seq_lib::to_multiset_build(prev, n - 1);
        } else {
            assert(nonempty_indices(nodes, n) == prev);
        }
    }
}

proof fn lemma_used_exactly_once(nodes: Seq<Vec<Vertex>>, f: Seq<int>, sk: Seq<int>)
    requires
        f.to_multiset().add(sk.to_multiset()) == all_indices(nodes.len() as int).to_multiset(),
        used_ok(nodes, f),
        skipped_ok(nodes, sk),
    ensures
        f.to_multiset() == nonempty_indices(nodes, nodes.len() as int).to_multiset(),
{
    broadcast use vstd::seq_lib::group_to_multiset_ensures;

    let n = nodes.len() as int;
    lemma_all_indices_count(n);
    lemma_nonempty_indices_count(nodes, n);
    assert forall|x: int| #[trigger] f.to_multiset().count(x) == nonempty_indices(nodes, n).to_multiset().count(x) by {
        assert(f.to_multiset().count(x) + sk.to_multiset().count(x) == all_indices(n).to_multiset().count(x));
        if sk.to_multiset().count(x) > 0 {
            assert(sk.contains(x));
            let j = choose|j: int| 0 <= j < sk.len() && sk[j] == x;
            assert(nodes[sk[j]]@.len() == 0);
        }
        if f.to_multiset().count(x) > 0 {
            assert(f.contains(x));
            let j = choose|j: int| 0 <= j < f.len() && f[j] == x;
            assert(0 <= f[j] < n && nodes[f[j]]@.len() > 0);
        }
    }
    assert(f.to_multiset() =~= nonempty_indices(nodes, n).to_multiset());
}

spec fn tally(f: Seq<int>, c: Seq<int>, sk: Seq<int>, r: Seq<int>) -> Multiset<int> {
    f.to_multiset().add(c.to_multiset()).add(sk.to_multiset()).add(r.to_multiset())
}

spec fn tracks(orig: Seq<Vec<Vertex>>, rest: Seq<Vec<Vertex>>, ri: Seq<int>) -> bool {
    &&& ri.len() == rest.len()
    &&& forall|k: int| 0 <= k < ri.len() ==> 0 <= #[trigger] ri[k] < orig.len() && rest[k] == orig[ri[k]]
}

proof fn lemma_tracks_swap(orig: Seq<Vec<Vertex>>, rest: Seq<Vec<Vertex>>, ri: Seq<int>, i: int)
    requires
        tracks(orig, rest, ri),
        0 <= i < rest.len(),
    ensures
        tracks(orig, swap_removed(rest, i), swap_removed(ri, i)),
        forall|k: int|
            0 <= k < swap_removed(rest, i).len() ==> #[trigger] swap_removed(rest, i)[k] == rest[k]
                || swap_removed(rest, i)[k] == rest.last(),
{
    let r2 = swap_removed(rest, i);
    let i2 = swap_removed(ri, i);
    assert forall|k: int| 0 <= k < i2.len() implies 0 <= #[trigger] i2[k] < orig.len() && r2[k] == orig[i2[k]] by {
        if k == i {
            assert(i2[k] == ri[ri.len() - 1]);
            assert(r2[k] == rest[rest.len() - 1]);
        } else {
            assert(i2[k] == ri[k]);
        }
    }
}

proof fn lemma_move_index(f: Seq<int>, c: Seq<int>, sk: Seq<int>, r: Seq<int>, i: int, c2: Seq<int>)
    requires
        0 <= i < r.len(),
        c2.to_multiset() == c.to_multiset().insert(r[i]),
    ensures
        tally(f, c2, sk, swap_removed(r, i)) == tally(f, c, sk, r),
{
    lemma_swap_removed_multiset(r, i);
    assert(tally(f, c2, sk, swap_removed(r, i)) =~= tally(f, c, sk, r));
}

/// Stitches fragments into maximal paths. Each round takes the first
/// remaining fragment as the current path (the last remaining one moving
/// into its place), then splices onto its front and its back every remaining
/// fragment that shares the end node id, until no remaining fragment touches
/// either end. Empty fragments are dropped.
///
/// Each path is made of whole input fragments joined at shared end ids,
/// every non-empty fragment being used exactly once; the edges of the paths
/// are exactly the edges of the fragments; every path is non-empty; and no
/// later path begins or ends at a node where an earlier one begins or ends.
#[verifier::rlimit(100)]
pub fn merge_nodes(nodes: Vec<Vec<Vertex>>) -> (paths: Vec<Vec<Vertex>>)
    ensures
        assembles(nodes@, paths@),
{
    broadcast use vstd::seq_lib::group_to_multiset_ensures;

    let ghost orig = nodes@;
    let ghost n = orig.len() as int;
    let mut rest = nodes;
    let mut result: Vec<Vec<Vertex>> = Vec::new();
    let ghost mut ri: Seq<int> = all_indices(n);
    let ghost mut done_d: Seq<Seq<(int, bool)>> = Seq::empty();
    let ghost mut skipped: Seq<int> = Seq::empty();
    proof {
        assert(fragments_edge_bag(result@) =~= Multiset::empty());
        assert(fragments_edge_bag(rest@).add(fragments_edge_bag(result@)) =~= fragments_edge_bag(orig));
        assert(flat_indices(done_d) =~= Seq::<int>::empty());
        assert(tally(flat_indices(done_d), Seq::empty(), skipped, ri) =~= all_indices(n).to_multiset());
    }
    while rest.len() > 0
        invariant
            fragments_edge_bag(rest@).add(fragments_edge_bag(result@)) == fragments_edge_bag(orig),
            forall|i: int| 0 <= i < result@.len() ==> (#[trigger] result@[i]@).len() > 0,
            forall|i: int, j: int|
                0 <= i < j < result@.len() ==> #[trigger] ends_apart(result@[i]@, result@[j]@),
            forall|i: int, k: int|
                0 <= i < result@.len() && 0 <= k < rest@.len() ==> #[trigger] clear_of(rest@[k]@, result@[i]@),
            n == orig.len(),
            tracks(orig, rest@, ri),
            done_d.len() == result@.len(),
            forall|k: int| 0 <= k < done_d.len() ==> spliced(orig, #[trigger] done_d[k], result@[k]@),
            tally(flat_indices(done_d), Seq::empty(), skipped, ri) == all_indices(n).to_multiset(),
            used_ok(orig, flat_indices(done_d)),
            skipped_ok(orig, skipped),
        decreases rest@.len(),
    {
        let ghost rest0 = rest@;
        let ghost ri0 = ri;
        let ghost done = result@;
        let mut path = rest.swap_remove(0);
        let ghost idx0 = ri0[0];
        proof {
            lemma_fragments_swap_remove(rest0, 0);
            lemma_tracks_swap(orig, rest0, ri0, 0);
            ri = swap_removed(ri0, 0);
        }
        if path.len() > 0 {
            let ghost mut cur: Seq<(int, bool)> = seq![(idx0, false)];
            proof {
                assert(touches(rest0[0]@, path@[0].id));
                assert(touches(rest0[0]@, path@.last().id));
                assert(pieces(orig, cur) =~= seq![orig[idx0]@]);
                assert(indices(cur) =~= Seq::<int>::empty().push(idx0));
                vstd::seq_lib::to_multiset_build(Seq::<int>::empty(), idx0);
                lemma_move_index(flat_indices(done_d), Seq::empty(), skipped, ri0, 0, indices(cur));
                assert forall|k: int| 0 <= k < rest@.len() implies exists|j: int|
                    0 <= j < rest0.len() && #[trigger] rest@[k] == rest0[j] by {
                    if rest@[k] != rest0[k] {
                        assert(rest@[k] == rest0[rest0.len() - 1]);
                    }
                }
            }
            loop
                invariant
                    path@.len() > 0,
                    fragments_edge_bag(rest@).add(edge_bag(ids(path@))).add(fragments_edge_bag(result@))
                        == fragments_edge_bag(orig),
                    result@ == done,
                    forall|k: int|
                        0 <= k < rest@.len() ==> exists|j: int|
                            0 <= j < rest0.len() && #[trigger] rest@[k] == rest0[j],
                    is_fragment_end(rest0, path@[0].id),
                    is_fragment_end(rest0, path@.last().id),
                    rest@.len() < rest0.len(),
                    forall|i: int, k: int|
                        0 <= i < done.len() && 0 <= k < rest0.len() ==> #[trigger] clear_of(rest0[k]@, done[i]@),
                    tracks(orig, rest@, ri),
                    spliced(orig, cur, path@),
                    tally(flat_indices(done_d), indices(cur), skipped, ri) == all_indices(n).to_multiset(),
                ensures
                    forall|k: int| 0 <= k < rest@.len() ==> #[trigger] clear_of(rest@[k]@, path@),
                decreases rest@.len(),
            {
                let ghost before = rest@;
                let ghost rib = ri;
                let first_id = path[0].id;
                let front = find_match(first_id, &mut rest);
                match front {
                    Some(m) => {
                        let ghost i = choose|i: int|
                            {
                                &&& 0 <= i < before.len()
                                &&& touches(before[i]@, first_id)
                                &&& forall|k: int| 0 <= k < i ==> !touches(#[trigger] before[k]@, first_id)
                                &&& rest@ == before.update(i, before.last()).drop_last()
                                &&& m@ == oriented(before[i]@, first_id)
                            };
                        let turned = reversed(&m);
                        let ghost pc = (rib[i], before[i]@[0].id == first_id);
                        proof {
                            lemma_fragments_swap_remove(before, i);
                            lemma_tracks_swap(orig, before, rib, i);
                            ri = swap_removed(rib, i);
                            lemma_ids_reverse(before[i]@);
                            lemma_ids_reverse(m@);
                            assert(m@.reverse().reverse() =~= m@);
                            assert(before[i]@.reverse().reverse() =~= before[i]@);
                            assert(turned@ == piece(orig, pc));
                            lemma_ids_splice(turned@, path@);
                            let j = choose|j: int| 0 <= j < rest0.len() && before[i] == rest0[j];
                            assert(touches(rest0[j]@, turned@[0].id));
                            assert forall|k: int| 0 <= k < rest@.len() implies exists|j: int|
                                0 <= j < rest0.len() && #[trigger] rest@[k] == rest0[j] by {
                                if rest@[k] == before[k] {
                                    let j = choose|j: int| 0 <= j < rest0.len() && #[trigger] before[k] == rest0[j];
                                } else {
                                    assert(rest@[k] == before[before.len() - 1]);
                                    let j = choose|j: int| 0 <= j < rest0.len() && #[trigger] before[before.len() - 1] == rest0[j];
                                }
                            }
                            let a = fragments_edge_bag(rest@);
                            let b = edge_bag(ids(before[i]@));
                            let c = edge_bag(ids(path@));
                            let d = fragments_edge_bag(result@);
                            assert(a.add(b).add(c).add(d) =~= a.add(c.add(b)).add(d));
                            assert(c.add(b) =~= b.add(c));
                            lemma_front_step(orig, cur, path@, pc);
                            let c2 = seq![pc] + cur;
                            assert(indices(c2) =~= indices(cur).insert(0, rib[i]));
                            vstd::seq_lib::to_multiset_insert(indices(cur), 0, rib[i]);
                            lemma_move_index(flat_indices(done_d), indices(cur), skipped, rib, i, indices(c2));
                            cur = c2;
                        }
                        let ghost old_path = path@;
                        path = splice(turned, &path);
                        proof {
                            if old_path.len() > 1 {
                                assert(path@.last() == old_path.last());
                            } else {
                                assert(path@.last() == turned@.last());
                            }
                        }
                        continue;
                    },
                    None => {},
                }
                let last_id = path[path.len() - 1].id;
                let back = find_match(last_id, &mut rest);
                match back {
                    Some(m) => {
                        let ghost i = choose|i: int|
                            {
                                &&& 0 <= i < before.len()
                                &&& touches(before[i]@, last_id)
                                &&& forall|k: int| 0 <= k < i ==> !touches(#[trigger] before[k]@, last_id)
                                &&& rest@ == before.update(i, before.last()).drop_last()
                                &&& m@ == oriented(before[i]@, last_id)
                            };
                        let ghost pc = (rib[i], before[i]@[0].id != last_id);
                        proof {
                            lemma_fragments_swap_remove(before, i);
                            lemma_tracks_swap(orig, before, rib, i);
                            ri = swap_removed(rib, i);
                            lemma_ids_reverse(before[i]@);
                            assert(m@ == piece(orig, pc));
                            lemma_ids_splice(path@, m@);
                            let j = choose|j: int| 0 <= j < rest0.len() && before[i] == rest0[j];
                            assert(touches(rest0[j]@, m@.last().id));
                            assert forall|k: int| 0 <= k < rest@.len() implies exists|j: int|
                                0 <= j < rest0.len() && #[trigger] rest@[k] == rest0[j] by {
                                if rest@[k] == before[k] {
                                    let j = choose|j: int| 0 <= j < rest0.len() && #[trigger] before[k] == rest0[j];
                                } else {
                                    assert(rest@[k] == before[before.len() - 1]);
                                    let j = choose|j: int| 0 <= j < rest0.len() && #[trigger] before[before.len() - 1] == rest0[j];
                                }
                            }
                            let a = fragments_edge_bag(rest@);
                            let b = edge_bag(ids(before[i]@));
                            let c = edge_bag(ids(path@));
                            let d = fragments_edge_bag(result@);
                            assert(a.add(b).add(c).add(d) =~= a.add(c.add(b)).add(d));
                            lemma_back_step(orig, cur, path@, pc);
                            let c2 = cur.push(pc);
                            assert(indices(c2) =~= indices(cur).push(rib[i]));
                            vstd::seq_lib::to_multiset_build(indices(cur), rib[i]);
                            lemma_move_index(flat_indices(done_d), indices(cur), skipped, rib, i, indices(c2));
                            cur = c2;
                        }
                        let ghost old_path = path@;
                        path = splice(path, &m);
                        proof {
                            assert(path@[0] == old_path[0]);
                        }
                        continue;
                    },
                    None => {},
                }
                break;
            }
            proof {
                let q = path@;
                assert forall|i: int| 0 <= i < done.len() implies #[trigger] ends_apart(done[i]@, q) by {
                    let k0 = choose|k: int| 0 <= k < rest0.len() && #[trigger] touches(rest0[k]@, q[0].id);
                    let k1 = choose|k: int| 0 <= k < rest0.len() && #[trigger] touches(rest0[k]@, q.last().id);
                    assert(clear_of(rest0[k0]@, done[i]@));
                    assert(clear_of(rest0[k1]@, done[i]@));
                }
                assert forall|i: int, k: int| 0 <= i < done.len() && 0 <= k < rest@.len() implies #[trigger] clear_of(rest@[k]@, done[i]@) by {
                    let j = choose|j: int| 0 <= j < rest0.len() && #[trigger] rest@[k] == rest0[j];
                    assert(clear_of(rest0[j]@, done[i]@));
                }
            }
            let ghost mid = result@;
            let ghost dmid = done_d;
            result.push(path);
            proof {
                let r = result@;
                assert(r.drop_last() =~= mid);
                let a = fragments_edge_bag(rest@);
                let c = edge_bag(ids(r.last()@));
                let d = fragments_edge_bag(mid);
                assert(a.add(c).add(d) =~= a.add(d.add(c)));
                assert forall|i: int| 0 <= i < r.len() && i != r.len() - 1 implies r[i] == mid[i] by {}
                done_d = dmid.push(cur);
                assert(done_d.drop_last() =~= dmid);
                assert(flat_indices(done_d) == flat_indices(dmid) + indices(cur));
                lemma_multiset_concat(flat_indices(dmid), indices(cur));
                Seq::<int>::empty().to_multiset_ensures();
                assert(Seq::<int>::empty().to_multiset().len() == 0);
                assert(Seq::<int>::empty().to_multiset() =~= Multiset::<int>::empty());
                assert(tally(flat_indices(done_d), Seq::empty(), skipped, ri) =~= tally(
                    flat_indices(dmid),
                    indices(cur),
                    skipped,
                    ri,
                ));
                assert forall|k: int| 0 <= k < done_d.len() implies spliced(orig, #[trigger] done_d[k], result@[k]@) by {
                    if k < dmid.len() {
                        assert(done_d[k] == dmid[k]);
                    }
                }
                let fl = flat_indices(done_d);
                assert forall|j: int| 0 <= j < fl.len() implies 0 <= #[trigger] fl[j] < orig.len() && orig[fl[j]]@.len() > 0 by {
                    let f0 = flat_indices(dmid);
                    if j < f0.len() {
                        assert(fl[j] == f0[j]);
                    } else {
                        assert(fl[j] == cur[j - f0.len()].0);
                    }
                }
            }
        } else {
            proof {
                assert(ids(path@) =~= Seq::<i64>::empty());
                assert(edge_bag(ids(path@)) == Multiset::<(i64, i64)>::empty());
                assert(fragments_edge_bag(rest@).add(Multiset::empty()) =~= fragments_edge_bag(rest@));
                assert forall|i: int, k: int| 0 <= i < result@.len() && 0 <= k < rest@.len() implies #[trigger] clear_of(rest@[k]@, result@[i]@) by {
                    if rest@[k] != rest0[k] {
                        assert(rest@[k] == rest0[rest0.len() - 1]);
                    }
                }
                let sk2 = skipped.push(idx0);
                vstd::seq_lib::to_multiset_build(skipped, idx0);
                lemma_swap_removed_multiset(ri0, 0);
                assert(tally(flat_indices(done_d), Seq::empty(), sk2, ri) =~= tally(
                    flat_indices(done_d),
                    Seq::empty(),
                    skipped,
                    ri0,
                ));
                assert forall|j: int| 0 <= j < sk2.len() implies 0 <= #[trigger] sk2[j] < orig.len() && orig[sk2[j]]@.len() == 0 by {
                    if j < skipped.len() {
                        assert(sk2[j] == skipped[j]);
                    }
                }
                skipped = sk2;
            }
        }
    }
    proof {
        assert(fragments_edge_bag(Seq::<Vec<Vertex>>::empty()) == Multiset::<(i64, i64)>::empty());
        assert(Multiset::<(i64, i64)>::empty().add(fragments_edge_bag(result@)) =~= fragments_edge_bag(result@));
        assert(ri.len() == 0);
        assert(ri =~= Seq::<int>::empty());
        assert(tally(flat_indices(done_d), Seq::empty(), skipped, ri) =~= flat_indices(done_d).to_multiset().add(
            skipped.to_multiset(),
        ));
        lemma_used_exactly_once(orig, flat_indices(done_d), skipped);
        assert(decomposes(orig, result@, done_d));
    }
    result
}

/// Whether a path is closed: its first and last node ids coincide.
pub open spec fn closed(p: Seq<Vertex>) -> bool {
    p.len() > 0 && p[0].id == p.last().id
}

/// An assembled path, flagged as closed (a ring) or open.
pub struct Ring {
    pub vertices: Vec<Vertex>,
    pub closed: bool,
}

fn copy_path(v: &Vec<Vertex>) -> (r: Vec<Vertex>)
    ensures
        r@ == v@,
{
    let mut r: Vec<Vertex> = Vec::new();
    let mut i: usize = 0;
    while i < v.len()
        invariant
            i <= v@.len(),
            r@ =~= v@.subrange(0, i as int),
        decreases v@.len() - i,
    {
        r.push(v[i]);
        i = i + 1;
    }
    assert(v@.subrange(0, v@.len() as int) =~= v@);
    r
}

/// Assembles fragments into paths (see `merge_nodes`) and flags each path
/// as closed or open; open paths are kept, never closed by force.
pub fn assemble_rings(fragments: Vec<Vec<Vertex>>) -> (r: Vec<Ring>)
    ensures
        exists|paths: Seq<Vec<Vertex>>|
            {
                &&& assembles(fragments@, paths)
                &&& r@.len() == paths.len()
                &&& forall|i: int|
                    0 <= i < paths.len() ==> (#[trigger] r@[i]).vertices@ == paths[i]@ && r@[i].closed == closed(
                        paths[i]@,
                    )
            },
{
    let ghost input = fragments@;
    let paths = merge_nodes(fragments);
    let mut r: Vec<Ring> = Vec::new();
    let mut i: usize = 0;
    while i < paths.len()
        invariant
            i <= paths@.len(),
            r@.len() == i,
            forall|k: int| 0 <= k < i ==> (#[trigger] r@[k]).vertices@ == paths@[k]@ && r@[k].closed == closed(paths@[k]@),
        decreases paths@.len() - i,
    {
        let n = paths[i].len();
        let is_closed = n > 0 && paths[i][0].id == paths[i][n - 1].id;
        r.push(Ring { vertices: copy_path(&paths[i]), closed: is_closed });
        i = i + 1;
    }
    assert(assembles(input, paths@));
    r
}

} // verus!
