//! Plain-value model of graph elements and their tags.
use vstd::prelude::*;

verus! {

/// A coordinate in decimicro degrees (degrees times 10^7).
#[derive(Clone, Copy, Debug, PartialEq, Eq, Structural)]
pub struct Coord {
    pub lon: i32,
    pub lat: i32,
}

/// One `key=value` tag of an element.
#[derive(Clone, Debug)]
pub struct Tag {
    pub key: String,
    pub value: String,
}

/// The value of the first tag with the given key.
pub open spec fn tag_value(tags: Seq<Tag>, key: Seq<char>) -> Option<Seq<char>>
    decreases tags.len(),
{
    if tags.len() == 0 {
        None
    } else if tags[0].key@ == key {
        Some(tags[0].value@)
    } else {
        tag_value(tags.drop_first(), key)
    }
}

proof fn lemma_tag_value_suffix(tags: Seq<Tag>, key: Seq<char>, i: int)
    requires
        0 <= i < tags.len(),
        tags[i].key@ != key,
    ensures
        tag_value(tags.subrange(i, tags.len() as int), key) == tag_value(
            tags.subrange(i + 1, tags.len() as int),
            key,
        ),
{
    assert(tags.subrange(i, tags.len() as int).drop_first() =~= tags.subrange(
        i + 1,
        tags.len() as int,
    ));
}

/// Looks up the value of `key` among `tags` (the first tag with that key).
pub fn get_tag(tags: &Vec<Tag>, key: &String) -> (r: Option<String>)
    ensures
        match r {
            Some(v) => tag_value(tags@, key@) == Some(v@),
            None => tag_value(tags@, key@) is None,
        },
{
    let mut i: usize = 0;
    assert(tags@.subrange(0, tags@.len() as int) =~= tags@);
    while i < tags.len()
        invariant
            i <= tags@.len(),
            tag_value(tags@, key@) == tag_value(tags@.subrange(i as int, tags@.len() as int), key@),
        decreases tags@.len() - i,
    {
        if tags[i].key == *key {
            return Some(tags[i].value.clone());
        }
        proof {
            lemma_tag_value_suffix(tags@, key@, i as int);
        }
        i = i + 1;
    }
    None
}

/// Whether some tag carries `key`.
pub fn has_tag(tags: &Vec<Tag>, key: &String) -> (r: bool)
    ensures
        r == (tag_value(tags@, key@) is Some),
{
    get_tag(tags, key).is_some()
}

/// Whether `x` is one of `options`.
pub open spec fn one_of(options: Seq<String>, x: Seq<char>) -> bool {
    exists|i: int| 0 <= i < options.len() && #[trigger] options[i]@ == x
}

/// Membership of a string in a list of strings.
pub fn contains_str(options: &Vec<String>, x: &String) -> (r: bool)
    ensures
        r == one_of(options@, x@),
{
    let mut i: usize = 0;
    while i < options.len()
        invariant
            i <= options@.len(),
            forall|j: int| 0 <= j < i ==> options@[j]@ != x@,
        decreases options@.len() - i,
    {
        if options[i] == *x {
            return true;
        }
        i = i + 1;
    }
    false
}

/// What a relation member refers to.
#[derive(Clone, Copy, Debug, PartialEq, Eq, Structural)]
pub enum MemberKind {
    Node,
    Way,
    Relation,
}

/// One member of a relation: the kind and id of the element, and its role.
#[derive(Clone, Debug)]
pub struct Member {
    pub kind: MemberKind,
    pub id: i64,
    pub role: String,
}

/// A node: an id, a position and tags.
#[derive(Clone, Debug)]
pub struct Node {
    pub id: i64,
    pub coord: Coord,
    pub tags: Vec<Tag>,
}

/// A way: an id, the ordered ids of its nodes, and tags.
#[derive(Clone, Debug)]
pub struct Way {
    pub id: i64,
    pub nodes: Vec<i64>,
    pub tags: Vec<Tag>,
}

/// A relation: an id, its ordered members, and tags.
#[derive(Clone, Debug)]
pub struct Relation {
    pub id: i64,
    pub members: Vec<Member>,
    pub tags: Vec<Tag>,
}

/// One element of the graph dataset.
#[derive(Clone, Debug)]
pub enum Element {
    Node(Node),
    Way(Way),
    Relation(Relation),
}

/// A tag filter: an element passes when its `admin_level` is one of
/// `levels`, its `place` is one of `places`, it carries one of `keys`, or
/// it carries one of the `pairs` exactly.
#[derive(Clone, Debug)]
pub struct TagFilter {
    pub levels: Vec<String>,
    pub places: Vec<String>,
    pub keys: Vec<String>,
    pub pairs: Vec<Tag>,
}

/// Whether some key of `keys` is present among `tags`.
pub open spec fn has_some_key(tags: Seq<Tag>, keys: Seq<String>) -> bool {
    exists|i: int| 0 <= i < keys.len() && (#[trigger] tag_value(tags, keys[i]@)) is Some
}

/// Whether some pair of `pairs` is present among `tags`.
pub open spec fn has_some_pair(tags: Seq<Tag>, pairs: Seq<Tag>) -> bool {
    exists|i: int| 0 <= i < pairs.len() && #[trigger] tag_value(tags, pairs[i].key@) == Some(pairs[i].value@)
}

/// Whether `tags` pass the filter.
pub open spec fn admits(f: TagFilter, tags: Seq<Tag>) -> bool {
    ||| (tag_value(tags, "admin_level"@) matches Some(v) && one_of(f.levels@, v))
    ||| (tag_value(tags, "place"@) matches Some(v) && one_of(f.places@, v))
    ||| has_some_key(tags, f.keys@)
    ||| has_some_pair(tags, f.pairs@)
}

fn has_any_key(tags: &Vec<Tag>, keys: &Vec<String>) -> (r: bool)
    ensures
        r == has_some_key(tags@, keys@),
{
    let mut i: usize = 0;
    while i < keys.len()
        invariant
            i <= keys@.len(),
            forall|j: int| 0 <= j < i ==> (#[trigger] tag_value(tags@, keys@[j]@)) is None,
        decreases keys@.len() - i,
    {
        if has_tag(tags, &keys[i]) {
            return true;
        }
        i = i + 1;
    }
    false
}

fn has_any_pair(tags: &Vec<Tag>, pairs: &Vec<Tag>) -> (r: bool)
    ensures
        r == has_some_pair(tags@, pairs@),
{
    let mut i: usize = 0;
    while i < pairs.len()
        invariant
            i <= pairs@.len(),
            forall|j: int| 0 <= j < i ==> #[trigger] tag_value(tags@, pairs@[j].key@) != Some(pairs@[j].value@),
        decreases pairs@.len() - i,
    {
        match get_tag(tags, &pairs[i].key) {
            Some(v) => {
                if v == pairs[i].value {
                    return true;
                }
            },
            None => {},
        }
        i = i + 1;
    }
    false
}

impl TagFilter {
    /// Whether `tags` pass this filter.
    pub fn admits(&self, tags: &Vec<Tag>) -> (r: bool)
        ensures
            r == admits(*self, tags@),
    {
        let level_key = "admin_level".to_owned();
        let place_key = "place".to_owned();
        let by_level = match get_tag(tags, &level_key) {
            Some(v) => contains_str(&self.levels, &v),
            None => false,
        };
        if by_level {
            return true;
        }
        let by_place = match get_tag(tags, &place_key) {
            Some(v) => contains_str(&self.places, &v),
            None => false,
        };
        if by_place {
            return true;
        }
        has_any_key(tags, &self.keys) || has_any_pair(tags, &self.pairs)
    }
}

/// The views of a list of strings.
pub open spec fn views(xs: Seq<String>) -> Seq<Seq<char>> {
    xs.map_values(|x: String| x@)
}

/// Whether `f` is the administrative filter: admin levels 2, 3, 4, 8 and 9;
/// places country, state, region, city, town and village; the `capital`
/// key; and `boundary=administrative`.
pub open spec fn is_admin_filter(f: TagFilter) -> bool {
    &&& views(f.levels@) == seq!["2"@, "3"@, "4"@, "8"@, "9"@]
    &&& views(f.places@) == seq!["country"@, "state"@, "region"@, "city"@, "town"@, "village"@]
    &&& views(f.keys@) == seq!["capital"@]
    &&& f.pairs@.len() == 1
    &&& f.pairs@[0].key@ == "boundary"@
    &&& f.pairs@[0].value@ == "administrative"@
}

proof fn lemma_one_of_views(a: Seq<String>, b: Seq<String>, x: Seq<char>)
    requires
        views(a) == views(b),
    ensures
        one_of(a, x) == one_of(b, x),
{
    assert(views(a).len() == a.len() && views(b).len() == b.len());
    if one_of(a, x) {
        let i = choose|i: int| 0 <= i < a.len() && #[trigger] a[i]@ == x;
        assert(views(a)[i] == a[i]@ && views(b)[i] == b[i]@);
        assert(b[i]@ == x);
    }
    if one_of(b, x) {
        let i = choose|i: int| 0 <= i < b.len() && #[trigger] b[i]@ == x;
        assert(views(a)[i] == a[i]@ && views(b)[i] == b[i]@);
        assert(a[i]@ == x);
    }
}

/// Administrative filters agree on every tag list.
pub proof fn lemma_admin_filters_agree(f: TagFilter, g: TagFilter, tags: Seq<Tag>)
    requires
        is_admin_filter(f),
        is_admin_filter(g),
    ensures
        admits(f, tags) == admits(g, tags),
{
    if let Some(v) = tag_value(tags, "admin_level"@) {
        lemma_one_of_views(f.levels@, g.levels@, v);
    }
    if let Some(v) = tag_value(tags, "place"@) {
        lemma_one_of_views(f.places@, g.places@, v);
    }
    assert(views(f.keys@).len() == f.keys@.len() && views(g.keys@).len() == g.keys@.len());
    assert(views(f.keys@)[0] == f.keys@[0]@ && views(g.keys@)[0] == g.keys@[0]@);
    if has_some_key(tags, f.keys@) {
        let i = choose|i: int| 0 <= i < f.keys@.len() && (#[trigger] tag_value(tags, f.keys@[i]@)) is Some;
        assert(i == 0);
        assert(tag_value(tags, g.keys@[0]@) is Some);
    }
    if has_some_key(tags, g.keys@) {
        let i = choose|i: int| 0 <= i < g.keys@.len() && (#[trigger] tag_value(tags, g.keys@[i]@)) is Some;
        assert(i == 0);
        assert(tag_value(tags, f.keys@[0]@) is Some);
    }
    assert(has_some_pair(tags, f.pairs@) == has_some_pair(tags, g.pairs@));
}

/// The filter for administrative elements.
pub fn admin_filter() -> (f: TagFilter)
    ensures
        is_admin_filter(f),
{
    let levels = vec!["2".to_owned(), "3".to_owned(), "4".to_owned(), "8".to_owned(), "9".to_owned()];
    let places = vec![
        "country".to_owned(),
        "state".to_owned(),
        "region".to_owned(),
        "city".to_owned(),
        "town".to_owned(),
        "village".to_owned(),
    ];
    let keys = vec!["capital".to_owned()];
    let pairs = vec![Tag { key: "boundary".to_owned(), value: "administrative".to_owned() }];
    let f = TagFilter { levels, places, keys, pairs };
    assert(views(f.levels@) =~= seq!["2"@, "3"@, "4"@, "8"@, "9"@]);
    assert(views(f.places@) =~= seq!["country"@, "state"@, "region"@, "city"@, "town"@, "village"@]);
    assert(views(f.keys@) =~= seq!["capital"@]);
    f
}

/// Whether tags mark an administrative element (see `is_admin_filter`).
pub fn has_admin_tags(tags: &Vec<Tag>) -> (r: bool)
    ensures
        forall|f: TagFilter| is_admin_filter(f) ==> r == admits(f, tags@),
{
    let f = admin_filter();
    let r = f.admits(tags);
    assert forall|g: TagFilter| is_admin_filter(g) implies r == admits(g, tags@) by {
        lemma_admin_filters_agree(f, g, tags@);
    }
    r
}

/// Copy of a tag list.
pub fn copy_tags(tags: &Vec<Tag>) -> (r: Vec<Tag>)
    ensures
        r@ == tags@,
{
    let mut r: Vec<Tag> = Vec::new();
    let mut i: usize = 0;
    while i < tags.len()
        invariant
            i <= tags@.len(),
            r@ =~= tags@.subrange(0, i as int),
        decreases tags@.len() - i,
    {
        let t = Tag { key: tags[i].key.clone(), value: tags[i].value.clone() };
        r.push(t);
        i = i + 1;
    }
    assert(tags@.subrange(0, tags@.len() as int) =~= tags@);
    r
}

/// Copy of a member list.
pub fn copy_members(members: &Vec<Member>) -> (r: Vec<Member>)
    ensures
        r@ == members@,
{
    let mut r: Vec<Member> = Vec::new();
    let mut i: usize = 0;
    while i < members.len()
        invariant
            i <= members@.len(),
            r@ =~= members@.subrange(0, i as int),
        decreases members@.len() - i,
    {
        let m = Member { kind: members[i].kind, id: members[i].id, role: members[i].role.clone() };
        r.push(m);
        i = i + 1;
    }
    assert(members@.subrange(0, members@.len() as int) =~= members@);
    r
}

/// Copy of an id list.
pub fn copy_ids(ids: &Vec<i64>) -> (r: Vec<i64>)
    ensures
        r@ == ids@,
{
    let mut r: Vec<i64> = Vec::new();
    let mut i: usize = 0;
    while i < ids.len()
        invariant
            i <= ids@.len(),
            r@ =~= ids@.subrange(0, i as int),
        decreases ids@.len() - i,
    {
        r.push(ids[i]);
        i = i + 1;
    }
    assert(ids@.subrange(0, ids@.len() as int) =~= ids@);
    r
}

/// The value of decimal digits `s` if they fit in `max`: none for an empty
/// or non-digit text or a larger number.
pub open spec fn bounded_decimal(s: Seq<char>, max: u64) -> Option<u64> {
    match crate::hierarchy::population_value(s) {
        Some(v) => if v <= max {
            Some(v)
        } else {
            None
        },
        None => None,
    }
}

/// The tags of an administrative area as read from an interchange document:
/// the name (empty when missing), the admin level and the population (zero
/// when missing), and the remaining tags.
#[derive(Clone, Debug)]
pub struct ParsedTags {
    pub name: String,
    pub admin_level: u8,
    pub population: u32,
    pub extra: Vec<Tag>,
}

/// The numeric field read from an optional tag value: zero when the tag is
/// missing, an error when it is not a number up to `max`.
pub open spec fn numeric_field(v: Option<Seq<char>>, max: u64) -> Result<u64, ()> {
    match v {
        None => Ok(0),
        Some(t) => match bounded_decimal(t, max) {
            Some(x) => Ok(x),
            None => Err(()),
        },
    }
}

fn read_numeric(tags: &Vec<Tag>, key: &String, max: u64) -> (r: Result<u64, ()>)
    ensures
        r == numeric_field(tag_value(tags@, key@), max),
{
    match get_tag(tags, key) {
        None => Ok(0),
        Some(t) => match crate::hierarchy::parse_population(&t) {
            Some(x) => if x <= max {
                Ok(x)
            } else {
                Err(())
            },
            None => Err(()),
        },
    }
}

impl ParsedTags {
    /// Reads the named fields out of `tags`; the tags themselves stay in
    /// `extra`. Fails when `admin_level` is present but not a number up to
    /// 255, or `population` is present but not a number up to 2^32 - 1.
    pub fn from_tags(tags: &Vec<Tag>) -> (r: Result<ParsedTags, ()>)
        ensures
            match r {
                Ok(p) => {
                    &&& numeric_field(tag_value(tags@, "admin_level"@), 255) == Ok::<u64, ()>(p.admin_level as u64)
                    &&& numeric_field(tag_value(tags@, "population"@), 4294967295) == Ok::<u64, ()>(p.population as u64)
                    &&& p.name@ == match tag_value(tags@, "name"@) {
                        Some(v) => v,
                        None => Seq::<char>::empty(),
                    }
                    &&& p.extra@ == tags@
                },
                Err(_) => numeric_field(tag_value(tags@, "admin_level"@), 255) is Err || numeric_field(
                    tag_value(tags@, "population"@),
                    4294967295,
                ) is Err,
            },
    {
        let level = read_numeric(tags, &"admin_level".to_owned(), 255);
        let population = read_numeric(tags, &"population".to_owned(), 4294967295);
        let name = match get_tag(tags, &"name".to_owned()) {
            Some(v) => v,
            None => String::new(),
        };
        match (level, population) {
            (Ok(l), Ok(p)) => Ok(ParsedTags { name, admin_level: l as u8, population: p as u32, extra: copy_tags(tags) }),
            _ => Err(()),
        }
    }

    /// Whether the area has a name; nameless areas are left out.
    pub fn has_name(&self) -> (r: bool)
        ensures
            r == (self.name@.len() > 0),
    {
        !self.name.as_str().is_empty()
    }
}

} // verus!
