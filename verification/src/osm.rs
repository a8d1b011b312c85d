//! The OpenStreetMap objects that street extraction reads: nodes, ways and
//! relations, each with its tags, and an ordered map from identifier to object.
use vstd::prelude::*;

verus! {

/// Makes `osmpbfreader::Tags` known to the verifier as an opaque type.
#[verifier::external_type_specification]
#[verifier::external_body]
pub struct ExTags(osmpbfreader::Tags);

/// The key/value pairs that a `osmpbfreader::Tags` holds, as a map from key to
/// value.
pub uninterp spec fn tag_map(tags: osmpbfreader::Tags) -> Map<Seq<char>, Seq<char>>;

/// Looks a key up with the `get` that `osmpbfreader::Tags` offers through its
/// `Deref` to `flat_map::FlatMap`, and copies the value found into a `String`.
///
/// Trusted: a value is returned exactly when the tags hold the key, and it is
/// the value stored under that key.
#[verifier::external_body]
pub(crate) fn tag_value(tags: &osmpbfreader::Tags, key: &str) -> (found: Option<String>)
    ensures
        found is Some <==> tag_map(*tags).contains_key(key@),
        found is Some ==> found->0@ == tag_map(*tags)[key@],
{
    match tags.get(key) {
        Some(value) => Some(value.as_str().to_owned()),
        None => None,
    }
}

/// Whether the tags hold `key` with a value that is not empty.
pub open spec fn has_text(tags: osmpbfreader::Tags, key: Seq<char>) -> bool {
    tag_map(tags).contains_key(key) && tag_map(tags)[key].len() > 0
}

/// Whether the tags hold `key` with exactly the value `value`.
pub open spec fn has_value(tags: osmpbfreader::Tags, key: Seq<char>, value: Seq<char>) -> bool {
    tag_map(tags).contains_key(key) && tag_map(tags)[key] == value
}

/// The identifier of an OpenStreetMap object: its kind and its number.
#[derive(Clone, Copy, Debug, PartialEq, Eq, Structural)]
pub enum OsmId {
    Node(i64),
    Way(i64),
    Relation(i64),
}

impl OsmId {
    /// The position of the identifier's kind: nodes, then ways, then relations.
    pub open spec fn kind_rank(self) -> int {
        match self {
            OsmId::Node(_) => 0,
            OsmId::Way(_) => 1,
            OsmId::Relation(_) => 2,
        }
    }

    /// The number inside the identifier.
    pub open spec fn number(self) -> int {
        match self {
            OsmId::Node(n) => n as int,
            OsmId::Way(n) => n as int,
            OsmId::Relation(n) => n as int,
        }
    }

    /// The strict order of identifiers: by kind first, then by number.
    pub open spec fn precedes(self, other: OsmId) -> bool {
        self.kind_rank() < other.kind_rank() || (self.kind_rank() == other.kind_rank()
            && self.number() < other.number())
    }

    pub fn is_node(&self) -> (r: bool)
        ensures
            r == (*self is Node),
    {
        match self {
            OsmId::Node(_) => true,
            _ => false,
        }
    }

    pub fn is_way(&self) -> (r: bool)
        ensures
            r == (*self is Way),
    {
        match self {
            OsmId::Way(_) => true,
            _ => false,
        }
    }

    pub fn is_relation(&self) -> (r: bool)
        ensures
            r == (*self is Relation),
    {
        match self {
            OsmId::Relation(_) => true,
            _ => false,
        }
    }

    pub fn inner_id(&self) -> (n: i64)
        ensures
            n == self.number(),
    {
        match self {
            OsmId::Node(n) => *n,
            OsmId::Way(n) => *n,
            OsmId::Relation(n) => *n,
        }
    }

    fn rank(&self) -> (r: u8)
        ensures
            r == self.kind_rank(),
    {
        match self {
            OsmId::Node(_) => 0,
            OsmId::Way(_) => 1,
            OsmId::Relation(_) => 2,
        }
    }

    /// Whether `self` comes strictly before `other`.
    pub fn lt(&self, other: &OsmId) -> (r: bool)
        ensures
            r == self.precedes(*other),
    {
        let a: u8 = self.rank();
        let b: u8 = other.rank();
        a < b || (a == b && self.inner_id() < other.inner_id())
    }
}

/// A node: a point, in units of 10^-7 degrees.
#[derive(Debug)]
pub struct Node {
    pub id: i64,
    pub tags: osmpbfreader::Tags,
    pub decimicro_lat: i32,
    pub decimicro_lon: i32,
}

/// A way: an ordered list of node numbers.
#[derive(Debug)]
pub struct Way {
    pub id: i64,
    pub tags: osmpbfreader::Tags,
    pub nodes: Vec<i64>,
}

/// A member of a relation, with the role it plays there.
#[derive(Debug)]
pub struct Ref {
    pub member: OsmId,
    pub role: String,
}

/// A relation: an ordered list of members.
#[derive(Debug)]
pub struct Relation {
    pub id: i64,
    pub tags: osmpbfreader::Tags,
    pub refs: Vec<Ref>,
}

/// An OpenStreetMap object.
#[derive(Debug)]
pub enum OsmObj {
    Node(Node),
    Way(Way),
    Relation(Relation),
}

impl OsmObj {
    /// The identifier of the object.
    pub open spec fn osm_id(self) -> OsmId {
        match self {
            OsmObj::Node(n) => OsmId::Node(n.id),
            OsmObj::Way(w) => OsmId::Way(w.id),
            OsmObj::Relation(r) => OsmId::Relation(r.id),
        }
    }

    pub fn id(&self) -> (id: OsmId)
        ensures
            id == self.osm_id(),
    {
        match self {
            OsmObj::Node(n) => OsmId::Node(n.id),
            OsmObj::Way(w) => OsmId::Way(w.id),
            OsmObj::Relation(r) => OsmId::Relation(r.id),
        }
    }

    pub fn node(&self) -> (r: Option<&Node>)
        ensures
            r is Some <==> *self is Node,
            r is Some ==> *self == OsmObj::Node(*r->0),
    {
        match self {
            OsmObj::Node(n) => Some(n),
            _ => None,
        }
    }

    pub fn way(&self) -> (r: Option<&Way>)
        ensures
            r is Some <==> *self is Way,
            r is Some ==> *self == OsmObj::Way(*r->0),
    {
        match self {
            OsmObj::Way(w) => Some(w),
            _ => None,
        }
    }

    pub fn relation(&self) -> (r: Option<&Relation>)
        ensures
            r is Some <==> *self is Relation,
            r is Some ==> *self == OsmObj::Relation(*r->0),
    {
        match self {
            OsmObj::Relation(rel) => Some(rel),
            _ => None,
        }
    }
}

/// Whether the identifiers of `objs` increase strictly from one object to the
/// next, so that no identifier occurs twice.
pub open spec fn ordered(objs: Seq<OsmObj>) -> bool {
    forall|i: int, j: int| 0 <= i < j < objs.len() ==> (#[trigger] objs[i]).osm_id().precedes(
        (#[trigger] objs[j]).osm_id(),
    )
}

/// Whether some object of `objs` has the identifier `id`.
pub open spec fn holds(objs: Seq<OsmObj>, id: OsmId) -> bool {
    exists|i: int| 0 <= i < objs.len() && (#[trigger] objs[i]).osm_id() == id
}

/// The object of `objs` with the identifier `id`, if there is one.
pub open spec fn find(objs: Seq<OsmObj>, id: OsmId) -> Option<OsmObj> {
    if holds(objs, id) {
        Some(objs[choose|i: int| 0 <= i < objs.len() && (#[trigger] objs[i]).osm_id() == id])
    } else {
        None
    }
}

/// In an ordered sequence the object at a position is the one found under its
/// own identifier.
pub proof fn lemma_find_at(objs: Seq<OsmObj>, i: int)
    requires
        ordered(objs),
        0 <= i < objs.len(),
    ensures
        find(objs, objs[i].osm_id()) == Some(objs[i]),
{
    let id = objs[i].osm_id();
    let k = choose|k: int| 0 <= k < objs.len() && (#[trigger] objs[k]).osm_id() == id;
    if k < i {
        assert(objs[k].osm_id().precedes(objs[i].osm_id()));
    } else if i < k {
        assert(objs[i].osm_id().precedes(objs[k].osm_id()));
    }
}

/// The objects read from an OpenStreetMap extract, by identifier and in the
/// order of their identifiers.
pub struct ObjMap {
    objs: Vec<OsmObj>,
}

impl View for ObjMap {
    type V = Seq<OsmObj>;

    closed spec fn view(&self) -> Seq<OsmObj> {
        self.objs@
    }
}

impl ObjMap {
    /// The invariant of the map: its objects stand in the order of their
    /// identifiers.
    pub open spec fn wf(&self) -> bool {
        ordered(self@)
    }

    pub fn new() -> (map: ObjMap)
        ensures
            map.wf(),
            map@.len() == 0,
    {
        ObjMap { objs: Vec::new() }
    }

    pub fn len(&self) -> (n: usize)
        ensures
            n == self@.len(),
    {
        self.objs.len()
    }

    /// The object at position `i` in the order of identifiers.
    pub fn nth(&self, i: usize) -> (obj: &OsmObj)
        requires
            i < self@.len(),
        ensures
            *obj == self@[i as int],
    {
        &self.objs[i]
    }

    /// The first position whose object does not come before `id`.
    fn lower_bound(&self, id: &OsmId) -> (pos: usize)
        requires
            self.wf(),
        ensures
            pos <= self@.len(),
            forall|j: int| 0 <= j < pos ==> (#[trigger] self@[j]).osm_id().precedes(*id),
            forall|j: int| pos <= j < self@.len() ==> !(#[trigger] self@[j]).osm_id().precedes(*id),
    {
        let mut lo: usize = 0;
        let mut hi: usize = self.objs.len();
        while lo < hi
            invariant
                self.wf(),
                lo <= hi <= self@.len(),
                forall|j: int| 0 <= j < lo ==> (#[trigger] self@[j]).osm_id().precedes(*id),
                forall|j: int| hi <= j < self@.len() ==> !(#[trigger] self@[j]).osm_id().precedes(*id),
            decreases hi - lo,
        {
            let mid: usize = lo + (hi - lo) / 2;
            let here: OsmId = self.objs[mid].id();
            if here.lt(id) {
                assert forall|j: int| 0 <= j < mid + 1 implies (#[trigger] self@[j]).osm_id().precedes(*id) by {
                    if j < mid {
                        assert(self@[j].osm_id().precedes(self@[mid as int].osm_id()));
                    }
                }
                lo = mid + 1;
            } else {
                assert forall|j: int| mid <= j < self@.len() implies !(#[trigger] self@[j]).osm_id().precedes(*id) by {
                    if mid < j {
                        assert(self@[mid as int].osm_id().precedes(self@[j].osm_id()));
                    }
                }
                hi = mid;
            }
        }
        lo
    }

    /// The object stored under `id`.
    pub fn get(&self, id: &OsmId) -> (found: Option<&OsmObj>)
        requires
            self.wf(),
        ensures
            match found {
                Some(obj) => find(self@, *id) == Some(*obj),
                None => find(self@, *id) is None,
            },
    {
        let pos: usize = self.lower_bound(id);
        if pos < self.objs.len() {
            let here: OsmId = self.objs[pos].id();
            if here == *id {
                proof {
                    lemma_find_at(self@, pos as int);
                }
                return Some(&self.objs[pos]);
            }
        }
        proof {
            if holds(self@, *id) {
                let k = choose|k: int| 0 <= k < self@.len() && (#[trigger] self@[k]).osm_id() == *id;
                if k > pos {
                    assert(self@[pos as int].osm_id().precedes(self@[k].osm_id()));
                }
            }
        }
        None
    }

    /// Stores `obj` under its identifier, in place of the object that was
    /// stored under it, if any.
    pub fn insert(&mut self, obj: OsmObj)
        requires
            old(self).wf(),
        ensures
            final(self).wf(),
            find(final(self)@, obj.osm_id()) == Some(obj),
            forall|id: OsmId| id != obj.osm_id() ==> find(final(self)@, id) == find(old(self)@, id),
            final(self)@.len() == old(self)@.len() + (if holds(old(self)@, obj.osm_id()) {
                0int
            } else {
                1int
            }),
    {
        let id: OsmId = obj.id();
        let pos: usize = self.lower_bound(&id);
        let ghost before = self@;
        let mut replace: bool = false;
        if pos < self.objs.len() {
            let here: OsmId = self.objs[pos].id();
            replace = here == id;
        }
        if replace {
            self.objs.set(pos, obj);
            proof {
                let after = self@;
                assert(after == before.update(pos as int, obj));
                assert forall|i: int, j: int| 0 <= i < j < after.len() implies (#[trigger] after[i]).osm_id().precedes(
                    (#[trigger] after[j]).osm_id(),
                ) by {
                    assert(before[i].osm_id().precedes(before[j].osm_id()));
                }
                lemma_find_at(after, pos as int);
                assert(holds(before, id));
                assert forall|other: OsmId| other != id implies find(after, other) == find(
                    before,
                    other,
                ) by {
                    if holds(before, other) {
                        let k = choose|k: int| 0 <= k < before.len() && (#[trigger] before[k]).osm_id() == other;
                        assert(after[k] == before[k]);
                        lemma_find_at(before, k);
                        lemma_find_at(after, k);
                    } else if holds(after, other) {
                        let k = choose|k: int| 0 <= k < after.len() && (#[trigger] after[k]).osm_id() == other;
                        assert(before[k] == after[k]);
                    }
                }
            }
        } else {
            self.objs.insert(pos, obj);
            proof {
                let after = self@;
                assert(after == before.insert(pos as int, obj));
                assert forall|i: int, j: int| 0 <= i < j < after.len() implies (#[trigger] after[i]).osm_id().precedes(
                    (#[trigger] after[j]).osm_id(),
                ) by {
                    if j < pos {
                        assert(before[i].osm_id().precedes(before[j].osm_id()));
                    } else if j == pos {
                        assert(after[i] == before[i]);
                    } else if i < pos {
                        assert(after[i] == before[i]);
                        assert(after[j] == before[j - 1]);
                        if i < j - 1 {
                            assert(before[i].osm_id().precedes(before[j - 1].osm_id()));
                        }
                    } else if i == pos {
                        assert(after[j] == before[j - 1]);
                        assert(!before[j - 1].osm_id().precedes(id));
                        if j - 1 > pos {
                            assert(before[pos as int].osm_id().precedes(before[j - 1].osm_id()));
                        }
                    } else {
                        assert(after[i] == before[i - 1]);
                        assert(after[j] == before[j - 1]);
                        assert(before[i - 1].osm_id().precedes(before[j - 1].osm_id()));
                    }
                }
                lemma_find_at(after, pos as int);
                if holds(before, id) {
                    let k = choose|k: int| 0 <= k < before.len() && (#[trigger] before[k]).osm_id() == id;
                    if k > pos {
                        assert(before[pos as int].osm_id().precedes(before[k].osm_id()));
                    }
                }
                assert forall|other: OsmId| other != id implies find(after, other) == find(
                    before,
                    other,
                ) by {
                    if holds(before, other) {
                        let k = choose|k: int| 0 <= k < before.len() && (#[trigger] before[k]).osm_id() == other;
                        let k2 = if k < pos { k } else { k + 1 };
                        assert(after[k2] == before[k]);
                        lemma_find_at(before, k);
                        lemma_find_at(after, k2);
                    } else if holds(after, other) {
                        let k = choose|k: int| 0 <= k < after.len() && (#[trigger] after[k]).osm_id() == other;
                        let k2 = if k < pos { k } else { k - 1 };
                        assert(before[k2] == after[k]);
                    }
                }
            }
        }
    }
}

} // verus!
