//! Hierarchy resolution: parent candidates by containment across levels,
//! best-parent selection, the self-declared parent fallback, and pruning
//! of orphans.
use crate::geometry::{covers, shape_covers, Shape};
use crate::model::{get_tag, tag_value, Coord, Tag};
use vstd::prelude::*;
use vstd::string::StrSliceExecFns;

verus! {

/// The scope of a place; City < Region < Country.
#[derive(Clone, Copy, Debug, PartialEq, Eq, Structural)]
pub enum Level {
    City,
    Region,
    Country,
}

/// The rank of a level: 0 for a city, 1 for a region, 2 for a country.
pub open spec fn rank(l: Level) -> int {
    match l {
        Level::City => 0,
        Level::Region => 1,
        Level::Country => 2,
    }
}

/// The rank of a level.
pub fn level_rank(l: Level) -> (r: u8)
    ensures
        r as int == rank(l),
{
    match l {
        Level::City => 0,
        Level::Region => 1,
        Level::Country => 2,
    }
}

/// A place: its level, tags, geometry and representative point, and the
/// name of the parent it declares for the next larger level, if any.
#[derive(Clone, Debug)]
pub struct Place {
    pub level: Level,
    pub tags: Vec<Tag>,
    pub shape: Shape,
    pub center: Coord,
    pub declared_parent: Option<String>,
}

/// The value of a decimal digit character.
pub open spec fn digit_value(c: char) -> int {
    (c as int) - ('0' as int)
}

/// Whether `c` is a decimal digit.
pub open spec fn is_digit(c: char) -> bool {
    '0' <= c && c <= '9'
}

/// The number written by the decimal digits `s`.
pub open spec fn decimal_value(s: Seq<char>) -> int
    decreases s.len(),
{
    if s.len() == 0 {
        0
    } else {
        10 * decimal_value(s.drop_last()) + digit_value(s.last())
    }
}

/// The number that one or more decimal digits write, if it fits in 64 bits.
pub open spec fn digits_value(s: Seq<char>) -> Option<u64> {
    if s.len() > 0 && (forall|i: int| 0 <= i < s.len() ==> is_digit(#[trigger] s[i])) && decimal_value(s)
        <= u64::MAX {
        Some(decimal_value(s) as u64)
    } else {
        None
    }
}

proof fn lemma_decimal_value_nonneg(s: Seq<char>)
    requires
        forall|i: int| 0 <= i < s.len() ==> is_digit(#[trigger] s[i]),
    ensures
        decimal_value(s) >= 0,
        s.len() > 0 ==> decimal_value(s) >= decimal_value(s.drop_last()),
    decreases s.len(),
{
    if s.len() > 0 {
        assert(is_digit(s[s.len() - 1]));
        lemma_decimal_value_nonneg(s.drop_last());
    }
}

/// The unsigned number a text states: an optional `+`, then one or more
/// decimal digits whose number fits in 64 bits; anything else states none.
pub open spec fn population_value(s: Seq<char>) -> Option<u64> {
    if s.len() > 0 && s[0] == '+' {
        digits_value(s.drop_first())
    } else {
        digits_value(s)
    }
}

/// Reads an unsigned number, such as a population or an admin level.
pub fn parse_population(s: &String) -> (r: Option<u64>)
    ensures
        r == population_value(s@),
{
    let st = s.as_str();
    let n = st.unicode_len();
    if n > 0 && st.get_char(0) == '+' {
        let tail = st.substring_char(1, n).to_owned();
        assert(tail@ =~= s@.drop_first());
        parse_digits(&tail)
    } else {
        parse_digits(s)
    }
}

fn parse_digits(s: &String) -> (r: Option<u64>)
    ensures
        r == digits_value(s@),
{
    let st = s.as_str();
    let n = st.unicode_len();
    if n == 0 {
        return None;
    }
    let mut v: u64 = 0;
    let mut i: usize = 0;
    while i < n
        invariant
            n == s@.len(),
            st@ == s@,
            i <= n,
            forall|k: int| 0 <= k < i ==> is_digit(#[trigger] s@[k]),
            v as int == decimal_value(s@.subrange(0, i as int)),
        decreases n - i,
    {
        let c = st.get_char(i);
        let ghost pre = s@.subrange(0, i as int);
        let ghost post = s@.subrange(0, i + 1);
        assert(post.drop_last() =~= pre);
        if c < '0' || c > '9' {
            assert(!is_digit(s@[i as int]));
            return None;
        }
        let d = (c as u32 - '0' as u32) as u64;
        if v > (u64::MAX - d) / 10 {
            proof {
                assert forall|k: int| 0 <= k < post.len() implies is_digit(#[trigger] post[k]) by {
                    assert(post[k] == s@[k]);
                }
                assert(decimal_value(post) > u64::MAX) by (nonlinear_arith)
                    requires
                        decimal_value(post) == 10 * v + d,
                        v > (u64::MAX - d) / 10,
                        d <= 9,
                ;
                if forall|k: int| 0 <= k < s@.len() ==> is_digit(#[trigger] s@[k]) {
                    lemma_prefix_grows(s@, i + 1);
                }
            }
            return None;
        }
        proof {
            assert(10 * v + d <= u64::MAX) by (nonlinear_arith)
                requires
                    v <= (u64::MAX - d) / 10,
                    d <= 9,
            ;
        }
        v = v * 10 + d;
        i = i + 1;
    }
    assert(s@.subrange(0, n as int) =~= s@);
    Some(v)
}

proof fn lemma_prefix_grows(s: Seq<char>, k: int)
    requires
        0 < k <= s.len(),
        forall|i: int| 0 <= i < s.len() ==> is_digit(#[trigger] s[i]),
    ensures
        decimal_value(s) >= decimal_value(s.subrange(0, k)),
    decreases s.len() - k,
{
    if k < s.len() {
        lemma_prefix_grows(s, k + 1);
        let a = s.subrange(0, k + 1);
        assert(a.drop_last() =~= s.subrange(0, k));
        assert forall|i: int| 0 <= i < a.len() implies is_digit(#[trigger] a[i]) by {
            assert(a[i] == s[i]);
        }
        lemma_decimal_value_nonneg(a);
        lemma_decimal_value_nonneg(a.drop_last());
        assert(is_digit(s[k]));
        assert(decimal_value(a) == 10 * decimal_value(a.drop_last()) + digit_value(a.last()));
    } else {
        assert(s.subrange(0, k) =~= s);
    }
}

/// What best-parent selection looks at: the population (none when the tag
/// is missing or unreadable) and the length of the name in characters.
#[derive(Clone, Copy, Debug, PartialEq, Eq)]
pub struct ParentKey {
    pub population: Option<u64>,
    pub name_len: usize,
}

/// Whether population `a` ranks before `b`: larger first, missing last.
pub open spec fn population_before(a: Option<u64>, b: Option<u64>) -> bool {
    match (a, b) {
        (Some(x), Some(y)) => x > y,
        (Some(_), None) => true,
        _ => false,
    }
}

/// Whether key `a` ranks strictly before key `b` after a stable sort by
/// ascending name length followed by a stable sort by descending population.
pub open spec fn ranks_before(a: ParentKey, b: ParentKey) -> bool {
    population_before(a.population, b.population) || (a.population == b.population && a.name_len
        < b.name_len)
}

/// Whether `i` is the canonical candidate: nothing ranks before it, and it
/// ranks before every earlier candidate (the first of the best).
pub open spec fn is_best(keys: Seq<ParentKey>, i: int) -> bool {
    &&& 0 <= i < keys.len()
    &&& forall|j: int| 0 <= j < keys.len() ==> !ranks_before(#[trigger] keys[j], keys[i])
    &&& forall|j: int| 0 <= j < i ==> ranks_before(keys[i], #[trigger] keys[j])
}

fn key_before(a: ParentKey, b: ParentKey) -> (r: bool)
    ensures
        r == ranks_before(a, b),
{
    let pop = match (a.population, b.population) {
        (Some(x), Some(y)) => x > y,
        (Some(_), None) => true,
        _ => false,
    };
    let same_pop = match (a.population, b.population) {
        (Some(x), Some(y)) => x == y,
        (None, None) => true,
        _ => false,
    };
    pop || (same_pop && a.name_len < b.name_len)
}

/// Best-parent selection: the index of the candidate that comes first after
/// stable-sorting by ascending name length, then by descending population
/// (missing last); none for no candidates.
pub fn best_candidate(keys: &Vec<ParentKey>) -> (r: Option<usize>)
    ensures
        match r {
            None => keys@.len() == 0,
            Some(i) => is_best(keys@, i as int),
        },
{
    if keys.len() == 0 {
        return None;
    }
    let mut b: usize = 0;
    let mut j: usize = 1;
    while j < keys.len()
        invariant
            1 <= j <= keys@.len(),
            b < j,
            forall|k: int| 0 <= k < j ==> !ranks_before(#[trigger] keys@[k], keys@[b as int]),
            forall|k: int| 0 <= k < b ==> ranks_before(keys@[b as int], #[trigger] keys@[k]),
        decreases keys@.len() - j,
    {
        if key_before(keys[j], keys[b]) {
            b = j;
        }
        j = j + 1;
    }
    Some(b)
}

/// Best-parent selection is determined by the candidates' attributes
/// alone: any two orderings of the same candidate keys select a candidate
/// with identical attributes.
pub proof fn lemma_best_order_independent(a: Seq<ParentKey>, b: Seq<ParentKey>, i: int, j: int)
    requires
        a.to_multiset() == b.to_multiset(),
        is_best(a, i),
        is_best(b, j),
    ensures
        a[i] == b[j],
{
    broadcast use vstd::seq_lib::group_to_multiset_ensures;

    assert(a.to_multiset().count(a[i]) > 0);
    assert(b.contains(a[i]));
    let k = choose|k: int| 0 <= k < b.len() && b[k] == a[i];
    assert(!ranks_before(b[k], b[j]));
    assert(b.to_multiset().count(b[j]) > 0);
    assert(a.contains(b[j]));
    let m = choose|m: int| 0 <= m < a.len() && a[m] == b[j];
    assert(!ranks_before(a[m], a[i]));
}

/// The candidate key of a place: its population and the length of its name.
pub open spec fn key_of(tags: Seq<Tag>) -> ParentKey {
    ParentKey {
        population: match tag_value(tags, "population"@) {
            Some(v) => population_value(v),
            None => None,
        },
        name_len: match tag_value(tags, "name"@) {
            Some(v) => v.len() as usize,
            None => 0,
        },
    }
}

impl Place {
    /// The place's default name.
    pub fn name(&self) -> (r: Option<String>)
        ensures
            match r {
                Some(v) => tag_value(self.tags@, "name"@) == Some(v@),
                None => tag_value(self.tags@, "name"@) is None,
            },
    {
        get_tag(&self.tags, &"name".to_owned())
    }

    /// The place's candidate key.
    pub fn key(&self) -> (r: ParentKey)
        ensures
            r == key_of(self.tags@),
    {
        let population = match get_tag(&self.tags, &"population".to_owned()) {
            Some(v) => parse_population(&v),
            None => None,
        };
        let name_len = match self.name() {
            Some(v) => v.as_str().unicode_len(),
            None => 0,
        };
        ParentKey { population, name_len }
    }
}

/// Where a place's parent was found.
#[derive(Clone, Debug)]
pub enum ParentLink {
    /// A country: there is no larger level.
    Root,
    /// Every place of the first larger level whose shape covers the
    /// place's representative point, in order.
    Contained(Vec<usize>),
    /// No shape covers the point; the canonical place of the next larger
    /// level named as the declared parent.
    Named(usize),
    /// No shape covers the point and no place bears the declared parent's
    /// name: the name itself is kept (an orphan by fallback).
    Verbatim(String),
    /// No parent at all.
    Orphan,
}

/// What geo answers for each place's shape and the point `p`.
pub open spec fn hits_of(places: Seq<Place>, p: Coord) -> Seq<bool> {
    Seq::new(places.len(), |j: int| shape_covers(places[j].shape, p))
}

/// The indices below `n`, in order, of the places of rank `r` that are hit.
pub open spec fn level_hits(places: Seq<Place>, hits: Seq<bool>, r: int, n: int) -> Seq<usize>
    decreases n,
{
    if n <= 0 {
        Seq::empty()
    } else {
        let prev = level_hits(places, hits, r, n - 1);
        if hits[n - 1] && rank(places[n - 1].level) == r {
            prev.push((n - 1) as usize)
        } else {
            prev
        }
    }
}

/// The containing candidates of a place of rank `k`: those of the first
/// larger level that has any.
pub open spec fn geometric_parents(places: Seq<Place>, hits: Seq<bool>, k: int) -> Seq<usize> {
    let n = places.len() as int;
    if k >= 2 {
        Seq::empty()
    } else if level_hits(places, hits, k + 1, n).len() > 0 {
        level_hits(places, hits, k + 1, n)
    } else if k + 2 <= 2 {
        level_hits(places, hits, k + 2, n)
    } else {
        Seq::empty()
    }
}

/// The indices below `n`, in order, of the places of rank `r` named `name`.
pub open spec fn name_matches(places: Seq<Place>, r: int, name: Seq<char>, n: int) -> Seq<usize>
    decreases n,
{
    if n <= 0 {
        Seq::empty()
    } else {
        let prev = name_matches(places, r, name, n - 1);
        if rank(places[n - 1].level) == r && tag_value(places[n - 1].tags@, "name"@) == Some(name) {
            prev.push((n - 1) as usize)
        } else {
            prev
        }
    }
}

/// The candidate keys of the places at the given indices.
pub open spec fn keys_at(places: Seq<Place>, idx: Seq<usize>) -> Seq<ParentKey> {
    idx.map_values(|j: usize| key_of(places[j as int].tags@))
}

/// Whether `l` is the parent link that resolution gives place `i`, where
/// `hits` says which shapes cover its representative point.
pub open spec fn link_is(l: ParentLink, places: Seq<Place>, i: int, hits: Seq<bool>) -> bool {
    let k = rank(places[i].level);
    let geo = geometric_parents(places, hits, k);
    if k == 2 {
        l is Root
    } else if geo.len() > 0 {
        l matches ParentLink::Contained(v) && v@ == geo
    } else {
        match places[i].declared_parent {
            Some(name) => {
                let m = name_matches(places, k + 1, name@, places.len() as int);
                if m.len() > 0 {
                    l matches ParentLink::Named(p) && exists|b: int| is_best(keys_at(places, m), b) && p == m[b]
                } else {
                    l matches ParentLink::Verbatim(v) && v@ == name@
                }
            },
            None => l is Orphan,
        }
    }
}

proof fn lemma_level_hits_bounds(places: Seq<Place>, hits: Seq<bool>, r: int, n: int)
    requires
        0 <= n <= places.len(),
        n <= hits.len(),
        places.len() <= usize::MAX,
    ensures
        forall|k: int|
            0 <= k < level_hits(places, hits, r, n).len() ==> {
                let j = #[trigger] level_hits(places, hits, r, n)[k];
                &&& j < n
                &&& rank(places[j as int].level) == r
                &&& hits[j as int]
            },
    decreases n,
{
    if n > 0 {
        lemma_level_hits_bounds(places, hits, r, n - 1);
        let prev = level_hits(places, hits, r, n - 1);
        let cur = level_hits(places, hits, r, n);
        assert forall|k: int| 0 <= k < cur.len() implies {
            let j = #[trigger] cur[k];
            &&& j < n
            &&& rank(places[j as int].level) == r
            &&& hits[j as int]
        } by {
            if k < prev.len() {
                assert(cur[k] == prev[k]);
            }
        }
    }
}

proof fn lemma_name_matches_bounds(places: Seq<Place>, r: int, name: Seq<char>, n: int)
    requires
        0 <= n <= places.len(),
        places.len() <= usize::MAX,
    ensures
        forall|k: int|
            0 <= k < name_matches(places, r, name, n).len() ==> {
                let j = #[trigger] name_matches(places, r, name, n)[k];
                &&& j < n
                &&& rank(places[j as int].level) == r
            },
    decreases n,
{
    if n > 0 {
        lemma_name_matches_bounds(places, r, name, n - 1);
        let prev = name_matches(places, r, name, n - 1);
        let cur = name_matches(places, r, name, n);
        assert forall|k: int| 0 <= k < cur.len() implies {
            let j = #[trigger] cur[k];
            &&& j < n
            &&& rank(places[j as int].level) == r
        } by {
            if k < prev.len() {
                assert(cur[k] == prev[k]);
            }
        }
    }
}

fn collect_level_hits(places: &Vec<Place>, hits: &Vec<bool>, r: u8) -> (v: Vec<usize>)
    requires
        hits@.len() == places@.len(),
    ensures
        v@ == level_hits(places@, hits@, r as int, places@.len() as int),
{
    let mut v: Vec<usize> = Vec::new();
    let mut j: usize = 0;
    while j < places.len()
        invariant
            j <= places@.len(),
            hits@.len() == places@.len(),
            v@ == level_hits(places@, hits@, r as int, j as int),
        decreases places@.len() - j,
    {
        if hits[j] && level_rank(places[j].level) == r {
            v.push(j);
        }
        j = j + 1;
    }
    v
}

fn collect_name_matches(places: &Vec<Place>, r: u8, name: &String) -> (v: Vec<usize>)
    ensures
        v@ == name_matches(places@, r as int, name@, places@.len() as int),
        places@.len() <= usize::MAX,
{
    let mut v: Vec<usize> = Vec::new();
    let mut j: usize = 0;
    let name_key = "name".to_owned();
    while j < places.len()
        invariant
            j <= places@.len(),
            name_key@ == "name"@,
            v@ == name_matches(places@, r as int, name@, j as int),
        decreases places@.len() - j,
    {
        if level_rank(places[j].level) == r {
            match get_tag(&places[j].tags, &name_key) {
                Some(t) => {
                    if t == *name {
                        v.push(j);
                    }
                },
                None => {},
            }
        }
        j = j + 1;
    }
    v
}

/// The parent link of place `i`, given which shapes cover its
/// representative point (`hits[j]` for place `j`).
pub fn parents_from_hits(places: &Vec<Place>, i: usize, hits: &Vec<bool>) -> (l: ParentLink)
    requires
        i < places@.len(),
        hits@.len() == places@.len(),
    ensures
        link_is(l, places@, i as int, hits@),
{
    let k = level_rank(places[i].level);
    if k == 2 {
        return ParentLink::Root;
    }
    let near = collect_level_hits(places, hits, k + 1);
    if near.len() > 0 {
        return ParentLink::Contained(near);
    }
    if k + 2 <= 2 {
        let far = collect_level_hits(places, hits, k + 2);
        if far.len() > 0 {
            return ParentLink::Contained(far);
        }
    }
    match &places[i].declared_parent {
        Some(name) => {
            let m = collect_name_matches(places, k + 1, name);
            proof {
                lemma_name_matches_bounds(places@, k + 1, name@, places@.len() as int);
            }
            let mut keys: Vec<ParentKey> = Vec::new();
            let mut t: usize = 0;
            while t < m.len()
                invariant
                    t <= m@.len(),
                    m@ == name_matches(places@, k + 1, name@, places@.len() as int),
                    forall|q: int| 0 <= q < m@.len() ==> (#[trigger] m@[q]) < places@.len(),
                    keys@ =~= keys_at(places@, m@.subrange(0, t as int)),
                decreases m@.len() - t,
            {
                let key = places[m[t]].key();
                keys.push(key);
                t = t + 1;
            }
            assert(m@.subrange(0, m@.len() as int) =~= m@);
            match best_candidate(&keys) {
                Some(b) => ParentLink::Named(m[b]),
                None => ParentLink::Verbatim(name.clone()),
            }
        },
        None => ParentLink::Orphan,
    }
}

/// The parent link of place `i`: its representative point is tested
/// against every place's shape, then `parents_from_hits` decides.
pub fn resolve_place(places: &Vec<Place>, i: usize) -> (l: ParentLink)
    requires
        i < places@.len(),
    ensures
        link_is(l, places@, i as int, hits_of(places@, places@[i as int].center)),
{
    let p = places[i].center;
    let mut hits: Vec<bool> = Vec::new();
    let mut j: usize = 0;
    while j < places.len()
        invariant
            j <= places@.len(),
            p == places@[i as int].center,
            hits@ =~= hits_of(places@, p).subrange(0, j as int),
        decreases places@.len() - j,
    {
        let h = covers(&places[j].shape, p);
        hits.push(h);
        j = j + 1;
    }
    assert(hits@ =~= hits_of(places@, p));
    parents_from_hits(places, i, &hits)
}

/// Whether link `l` records place `p` as a parent.
pub open spec fn links_to(l: ParentLink, p: usize) -> bool {
    match l {
        ParentLink::Contained(v) => v@.contains(p),
        ParentLink::Named(q) => q == p,
        _ => false,
    }
}

/// Every recorded parent is a place of a strictly larger level.
pub open spec fn levels_increase(places: Seq<Place>, links: Seq<ParentLink>) -> bool {
    &&& links.len() == places.len()
    &&& forall|i: int, p: usize|
        0 <= i < links.len() && #[trigger] links_to(links[i], p) ==> p < places.len() && rank(
            places[p as int].level,
        ) > rank(places[i].level)
}

/// Whether a link excludes its place, given which places are excluded: an
/// orphan is, and so is a place with an excluded recorded parent.
pub open spec fn excluded_by(l: ParentLink, ex: Seq<bool>) -> bool {
    match l {
        ParentLink::Orphan => true,
        ParentLink::Contained(v) => exists|k: int| 0 <= k < v@.len() && ex[v@[k] as int],
        ParentLink::Named(q) => ex[q as int],
        _ => false,
    }
}

/// Whether `ex` is the cascade-pruned exclusion of `links`: a place is
/// excluded exactly when its link excludes it.
pub open spec fn pruned(links: Seq<ParentLink>, ex: Seq<bool>) -> bool {
    &&& ex.len() == links.len()
    &&& forall|i: int| 0 <= i < links.len() ==> #[trigger] ex[i] == excluded_by(links[i], ex)
}

proof fn lemma_link_is_increasing(l: ParentLink, places: Seq<Place>, i: int, hits: Seq<bool>)
    requires
        0 <= i < places.len(),
        hits.len() == places.len(),
        places.len() <= usize::MAX,
        link_is(l, places, i, hits),
    ensures
        forall|p: usize| #[trigger] links_to(l, p) ==> p < places.len() && rank(places[p as int].level) > rank(places[i].level),
{
    let n = places.len() as int;
    let k = rank(places[i].level);
    lemma_level_hits_bounds(places, hits, k + 1, n);
    lemma_level_hits_bounds(places, hits, k + 2, n);
    match places[i].declared_parent {
        Some(name) => {
            lemma_name_matches_bounds(places, k + 1, name@, n);
        },
        None => {},
    }
    assert forall|p: usize| #[trigger] links_to(l, p) implies p < places.len() && rank(places[p as int].level) > k by {
        match l {
            ParentLink::Contained(v) => {
                let q = choose|q: int| 0 <= q < v@.len() && v@[q] == p;
                let geo = geometric_parents(places, hits, k);
                assert(v@[q] == geo[q]);
                if level_hits(places, hits, k + 1, n).len() > 0 {
                    assert(level_hits(places, hits, k + 1, n)[q] == v@[q]);
                } else {
                    assert(level_hits(places, hits, k + 2, n)[q] == v@[q]);
                }
            },
            ParentLink::Named(q) => {
                let name = places[i].declared_parent->0;
                let m = name_matches(places, k + 1, name@, n);
                let b = choose|b: int| is_best(keys_at(places, m), b) && q == m[b];
                assert(m[b] == q);
            },
            _ => {},
        }
    }
}

proof fn lemma_excluded_by_update(l: ParentLink, ex: Seq<bool>, i: int, b: bool)
    requires
        0 <= i < ex.len(),
        !links_to(l, i as usize),
        forall|p: usize| #[trigger] links_to(l, p) ==> p < ex.len(),
    ensures
        excluded_by(l, ex.update(i, b)) == excluded_by(l, ex),
{
    let ex2 = ex.update(i, b);
    match l {
        ParentLink::Contained(v) => {
            assert forall|k: int| 0 <= k < v@.len() implies ex2[v@[k] as int] == ex[v@[k] as int] by {
                assert(v@.contains(v@[k]));
                assert(links_to(l, v@[k]));
            }
            if excluded_by(l, ex) {
                let k = choose|k: int| 0 <= k < v@.len() && ex[v@[k] as int];
                assert(ex2[v@[k] as int]);
            }
            if excluded_by(l, ex2) {
                let k = choose|k: int| 0 <= k < v@.len() && ex2[v@[k] as int];
                assert(ex[v@[k] as int]);
            }
        },
        ParentLink::Named(q) => {
            assert(links_to(l, q));
        },
        _ => {},
    }
}

fn is_excluded(l: &ParentLink, ex: &Vec<bool>) -> (b: bool)
    requires
        forall|p: usize| #[trigger] links_to(*l, p) ==> p < ex@.len(),
    ensures
        b == excluded_by(*l, ex@),
{
    match l {
        ParentLink::Orphan => true,
        ParentLink::Contained(v) => {
            let mut k: usize = 0;
            while k < v.len()
                invariant
                    k <= v@.len(),
                    forall|p: usize| #[trigger] links_to(*l, p) ==> p < ex@.len(),
                    *l == ParentLink::Contained(*v),
                    forall|q: int| 0 <= q < k ==> v@[q] < ex@.len() && !ex@[#[trigger] v@[q] as int],
                decreases v@.len() - k,
            {
                assert(0 <= k < v@.len());
                assert(v@.contains(v@[k as int]));
                assert(links_to(*l, v@[k as int]));
                if ex[v[k]] {
                    return true;
                }
                k = k + 1;
            }
            false
        },
        ParentLink::Named(q) => {
            assert(links_to(*l, *q));
            ex[*q]
        },
        _ => false,
    }
}

fn prune_level(places: &Vec<Place>, links: &Vec<ParentLink>, ex: &mut Vec<bool>, r: u8)
    requires
        levels_increase(places@, links@),
        old(ex)@.len() == links@.len(),
        forall|j: int|
            0 <= j < links@.len() && rank(places@[j].level) > r ==> #[trigger] old(ex)@[j] == excluded_by(links@[j], old(ex)@),
    ensures
        final(ex)@.len() == links@.len(),
        forall|j: int|
            0 <= j < links@.len() && rank(places@[j].level) >= r ==> #[trigger] final(ex)@[j] == excluded_by(links@[j], final(ex)@),
{
    let mut i: usize = 0;
    while i < links.len()
        invariant
            levels_increase(places@, links@),
            ex@.len() == links@.len(),
            i <= links@.len(),
            forall|j: int|
                0 <= j < links@.len() && (rank(places@[j].level) > r || (rank(places@[j].level) == r && j < i))
                    ==> #[trigger] ex@[j] == excluded_by(links@[j], ex@),
        decreases links@.len() - i,
    {
        if level_rank(places[i].level) == r {
            proof {
                assert forall|p: usize| #[trigger] links_to(links@[i as int], p) implies p < ex@.len() by {}
            }
            let b = is_excluded(&links[i], ex);
            let ghost before = ex@;
            ex.set(i, b);
            proof {
                assert(ex@ == before.update(i as int, b));
                assert forall|j: int|
                    0 <= j < links@.len() && (rank(places@[j].level) > r || (rank(places@[j].level) == r && j < i + 1))
                        implies #[trigger] ex@[j] == excluded_by(links@[j], ex@) by {
                    if links_to(links@[j], i) {
                        assert(rank(places@[i as int].level) > rank(places@[j].level));
                    }
                    assert forall|p: usize| #[trigger] links_to(links@[j], p) implies p < before.len() by {}
                    lemma_excluded_by_update(links@[j], before, i as int, b);
                }
            }
        }
        i = i + 1;
    }
}

/// The outcome of hierarchy resolution: each place's parent link, and
/// whether it is excluded after cascade pruning.
pub struct Hierarchy {
    pub links: Vec<ParentLink>,
    pub excluded: Vec<bool>,
}

/// Resolves the parent of every place, largest levels first, and prunes:
/// orphans are excluded, and so, repeatedly, is every place with an
/// excluded recorded parent.
pub fn resolve_hierarchy(places: &Vec<Place>) -> (h: Hierarchy)
    ensures
        h.links@.len() == places@.len(),
        forall|i: int|
            0 <= i < places@.len() ==> link_is(
                #[trigger] h.links@[i],
                places@,
                i,
                hits_of(places@, places@[i].center),
            ),
        levels_increase(places@, h.links@),
        pruned(h.links@, h.excluded@),
{
    let mut links: Vec<ParentLink> = Vec::new();
    let mut i: usize = 0;
    while i < places.len()
        invariant
            i <= places@.len(),
            links@.len() == i,
            forall|j: int|
                0 <= j < i ==> link_is(#[trigger] links@[j], places@, j, hits_of(places@, places@[j].center)),
        decreases places@.len() - i,
    {
        let l = resolve_place(places, i);
        links.push(l);
        proof {
            assert(links@[i as int] == l);
        }
        i = i + 1;
    }
    proof {
        assert forall|i: int, p: usize| 0 <= i < links@.len() && #[trigger] links_to(links@[i], p) implies p
            < places@.len() && rank(places@[p as int].level) > rank(places@[i].level) by {
            lemma_link_is_increasing(links@[i], places@, i, hits_of(places@, places@[i].center));
        }
    }
    let mut excluded: Vec<bool> = Vec::new();
    let mut k: usize = 0;
    while k < links.len()
        invariant
            k <= links@.len(),
            excluded@.len() == k,
        decreases links@.len() - k,
    {
        excluded.push(false);
        k = k + 1;
    }
    prune_level(places, &links, &mut excluded, 2);
    prune_level(places, &links, &mut excluded, 1);
    prune_level(places, &links, &mut excluded, 0);
    Hierarchy { links, excluded }
}

proof fn lemma_excluded_by_agree(l: ParentLink, ex1: Seq<bool>, ex2: Seq<bool>)
    requires
        forall|p: usize| #[trigger] links_to(l, p) ==> p < ex1.len() && p < ex2.len() && ex1[p as int] == ex2[p as int],
    ensures
        excluded_by(l, ex1) == excluded_by(l, ex2),
{
    match l {
        ParentLink::Contained(v) => {
            assert forall|k: int| 0 <= k < v@.len() implies ex1[v@[k] as int] == ex2[v@[k] as int] by {
                assert(v@.contains(v@[k]));
                assert(links_to(l, v@[k]));
            }
            if excluded_by(l, ex1) {
                let k = choose|k: int| 0 <= k < v@.len() && ex1[v@[k] as int];
                assert(ex2[v@[k] as int]);
            }
            if excluded_by(l, ex2) {
                let k = choose|k: int| 0 <= k < v@.len() && ex2[v@[k] as int];
                assert(ex1[v@[k] as int]);
            }
        },
        ParentLink::Named(q) => {
            assert(links_to(l, q));
        },
        _ => {},
    }
}

proof fn lemma_pruned_agree_from(places: Seq<Place>, links: Seq<ParentLink>, ex1: Seq<bool>, ex2: Seq<bool>, r: int)
    requires
        levels_increase(places, links),
        pruned(links, ex1),
        pruned(links, ex2),
        0 <= r <= 3,
    ensures
        forall|i: int| 0 <= i < links.len() && rank(places[i].level) >= r ==> #[trigger] ex1[i] == ex2[i],
    decreases 3 - r,
{
    if r < 3 {
        lemma_pruned_agree_from(places, links, ex1, ex2, r + 1);
        assert forall|i: int| 0 <= i < links.len() && rank(places[i].level) >= r implies #[trigger] ex1[i] == ex2[i] by {
            assert forall|p: usize| #[trigger] links_to(links[i], p) implies p < ex1.len() && p < ex2.len() && ex1[p as int]
                == ex2[p as int] by {
                assert(rank(places[p as int].level) > rank(places[i].level));
            }
            lemma_excluded_by_agree(links[i], ex1, ex2);
        }
    } else {
        assert forall|i: int| 0 <= i < links.len() && rank(places[i].level) >= r implies #[trigger] ex1[i] == ex2[i] by {
            assert(rank(places[i].level) <= 2);
        }
    }
}

/// Cascade pruning has one outcome: when parents always have larger
/// levels, at most one exclusion vector is a fixed point of the pruning rule.
pub proof fn lemma_pruned_unique(places: Seq<Place>, links: Seq<ParentLink>, ex1: Seq<bool>, ex2: Seq<bool>)
    requires
        levels_increase(places, links),
        pruned(links, ex1),
        pruned(links, ex2),
    ensures
        ex1 == ex2,
{
    lemma_pruned_agree_from(places, links, ex1, ex2, 0);
    assert forall|i: int| 0 <= i < ex1.len() implies ex1[i] == ex2[i] by {
        assert(rank(places[i].level) >= 0);
    }
    assert(ex1 =~= ex2);
}

/// Hierarchy monotonicity: after resolution, every place with a recorded
/// parent has a parent of a strictly larger level.
pub proof fn lemma_parent_level_larger(places: Seq<Place>, links: Seq<ParentLink>, i: int, p: usize)
    requires
        levels_increase(places, links),
        0 <= i < links.len(),
        links_to(links[i], p),
    ensures
        p < places.len(),
        rank(places[p as int].level) > rank(places[i].level),
{
}

proof fn lemma_best_unique(keys: Seq<ParentKey>, a: int, b: int)
    requires
        is_best(keys, a),
        is_best(keys, b),
    ensures
        a == b,
{
    if a < b {
        assert(ranks_before(keys[b], keys[a]));
    } else if b < a {
        assert(ranks_before(keys[a], keys[b]));
    }
}

/// The canonical parent recorded by a link: the best of the containing
/// candidates, or the place found by name.
pub open spec fn canonical_of(places: Seq<Place>, l: ParentLink) -> Option<usize> {
    match l {
        ParentLink::Contained(v) => if exists|b: int| is_best(keys_at(places, v@), b) {
            Some(v@[choose|b: int| is_best(keys_at(places, v@), b)])
        } else {
            None
        },
        ParentLink::Named(p) => Some(p),
        _ => None,
    }
}

/// The canonical parent of a place with link `l`.
pub fn canonical_parent(places: &Vec<Place>, l: &ParentLink) -> (r: Option<usize>)
    requires
        forall|p: usize| #[trigger] links_to(*l, p) ==> p < places@.len(),
    ensures
        r == canonical_of(places@, *l),
{
    match l {
        ParentLink::Contained(v) => {
            let mut keys: Vec<ParentKey> = Vec::new();
            let mut t: usize = 0;
            while t < v.len()
                invariant
                    t <= v@.len(),
                    *l == ParentLink::Contained(*v),
                    forall|p: usize| #[trigger] links_to(*l, p) ==> p < places@.len(),
                    keys@ =~= keys_at(places@, v@.subrange(0, t as int)),
                decreases v@.len() - t,
            {
                assert(v@.contains(v@[t as int]));
                assert(links_to(*l, v@[t as int]));
                let key = places[v[t]].key();
                keys.push(key);
                t = t + 1;
            }
            assert(v@.subrange(0, v@.len() as int) =~= v@);
            match best_candidate(&keys) {
                Some(b) => {
                    proof {
                        let c = choose|c: int| is_best(keys_at(places@, v@), c);
                        lemma_best_unique(keys@, b as int, c);
                    }
                    Some(v[b])
                },
                None => None,
            }
        },
        ParentLink::Named(p) => Some(*p),
        _ => None,
    }
}

/// The canonical localized name: the localized-name tag, else the official
/// localized-name tag, else the default name.
pub open spec fn localized_name_of(tags: Seq<Tag>, localized: Seq<char>, official: Seq<char>) -> Option<Seq<char>> {
    match tag_value(tags, localized) {
        Some(v) => Some(v),
        None => match tag_value(tags, official) {
            Some(v) => Some(v),
            None => tag_value(tags, "name"@),
        },
    }
}

/// A place's name in a language, given the keys of its localized and
/// official localized name tags (such as `name:en`, `official_name:en`).
pub fn localized_name(tags: &Vec<Tag>, localized: &String, official: &String) -> (r: Option<String>)
    ensures
        match r {
            Some(v) => localized_name_of(tags@, localized@, official@) == Some(v@),
            None => localized_name_of(tags@, localized@, official@) is None,
        },
{
    match get_tag(tags, localized) {
        Some(v) => Some(v),
        None => match get_tag(tags, official) {
            Some(v) => Some(v),
            None => get_tag(tags, &"name".to_owned()),
        },
    }
}

/// The places of one export row, by level.
pub struct RowPlaces {
    pub country: Option<usize>,
    pub region: Option<usize>,
    pub city: Option<usize>,
}

/// Whether slot `s` of a row holds `p` exactly when `p` has rank `k`.
pub open spec fn slot_is(s: Option<usize>, places: Seq<Place>, chain: Seq<usize>, k: int) -> bool {
    match s {
        Some(p) => chain.contains(p) && rank(places[p as int].level) == k,
        None => forall|q: int| 0 <= q < chain.len() ==> rank(places[#[trigger] chain[q] as int].level) != k,
    }
}

/// The chain of canonical parents from place `i` upwards, `i` first.
pub open spec fn parent_chain(places: Seq<Place>, links: Seq<ParentLink>, i: int) -> Seq<usize>
    decreases 3 - rank(places[i].level),
{
    if 0 <= i < links.len() && i < places.len() {
        match canonical_of(places, links[i]) {
            Some(p) => if 0 <= p < places.len() && rank(places[p as int].level) > rank(places[i].level) {
                seq![i as usize] + parent_chain(places, links, p as int)
            } else {
                seq![i as usize]
            },
            None => seq![i as usize],
        }
    } else {
        seq![i as usize]
    }
}

proof fn lemma_canonical_links(places: Seq<Place>, l: ParentLink, p: usize)
    requires
        canonical_of(places, l) == Some(p),
    ensures
        links_to(l, p),
{
    match l {
        ParentLink::Contained(v) => {
            let b = choose|b: int| is_best(keys_at(places, v@), b);
            assert(v@[b] == p);
            assert(v@.contains(p));
        },
        _ => {},
    }
}

/// The places of the export row of place `i`: itself and its canonical
/// ancestors, each in the slot of its level.
pub fn row_places(places: &Vec<Place>, links: &Vec<ParentLink>, i: usize) -> (r: RowPlaces)
    requires
        levels_increase(places@, links@),
        i < places@.len(),
    ensures
        slot_is(r.country, places@, parent_chain(places@, links@, i as int), 2),
        slot_is(r.region, places@, parent_chain(places@, links@, i as int), 1),
        slot_is(r.city, places@, parent_chain(places@, links@, i as int), 0),
{
    let mut row = RowPlaces { country: None, region: None, city: None };
    let mut cur: usize = i;
    let ghost mut seen: Seq<usize> = Seq::empty();
    assert(parent_chain(places@, links@, i as int) == seen + parent_chain(places@, links@, cur as int));
    loop
        invariant_except_break
            parent_chain(places@, links@, i as int) == seen + parent_chain(places@, links@, cur as int),
            forall|q: int| 0 <= q < seen.len() ==> rank(places@[#[trigger] seen[q] as int].level) < rank(places@[cur as int].level),
        invariant
            levels_increase(places@, links@),
            cur < places@.len(),
            slot_is(row.country, places@, seen, 2),
            slot_is(row.region, places@, seen, 1),
            slot_is(row.city, places@, seen, 0),
        ensures
            slot_is(row.country, places@, parent_chain(places@, links@, i as int), 2),
            slot_is(row.region, places@, parent_chain(places@, links@, i as int), 1),
            slot_is(row.city, places@, parent_chain(places@, links@, i as int), 0),
        decreases 3 - rank(places@[cur as int].level),
    {
        let k = level_rank(places[cur].level);
        let ghost old_seen = seen;
        if k == 0 {
            row.city = Some(cur);
        } else if k == 1 {
            row.region = Some(cur);
        } else {
            row.country = Some(cur);
        }
        proof {
            seen = seen.push(cur);
            assert(seen[seen.len() - 1] == cur);
            assert(seen.contains(cur));
            assert forall|q: int| 0 <= q < old_seen.len() implies seen[q] == old_seen[q] by {}
        }
        assert forall|p: usize| #[trigger] links_to(links@[cur as int], p) implies p < places@.len() by {}
        let next = canonical_parent(places, &links[cur]);
        match next {
            Some(p) => {
                proof {
                    lemma_canonical_links(places@, links@[cur as int], p);
                    assert(parent_chain(places@, links@, cur as int) == seq![cur] + parent_chain(places@, links@, p as int));
                    assert(seen + parent_chain(places@, links@, p as int) =~= old_seen + (seq![cur] + parent_chain(places@, links@, p as int)));
                }
                cur = p;
            },
            None => {
                proof {
                    assert(parent_chain(places@, links@, cur as int) == seq![cur]);
                    assert(old_seen + seq![cur] =~= seen);
                }
                break;
            },
        }
    }
    row
}

} // verus!
