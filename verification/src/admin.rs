//! Administrative regions, and the regions known to enclose a coordinate.
use std::collections::HashMap;
use vstd::prelude::*;

verus! {

/// A coordinate, in units of 10^-7 degrees.
#[derive(Clone, Copy, Debug, PartialEq, Eq, Structural)]
pub struct Coord {
    pub decimicro_lat: i32,
    pub decimicro_lon: i32,
}

/// A handle on an administrative region: its identity, by which regions are
/// told apart and ordered, its level and its weight. The region itself belongs
/// to whoever resolved it.
#[derive(Clone, Copy, Debug, PartialEq, Eq, Structural)]
pub struct Admin {
    pub id: u64,
    pub level: u32,
    pub weight: u32,
}

/// The answers of a point-in-region lookup, held as a table: for each
/// coordinate that was resolved, the regions that enclose it, in the order in
/// which they were given.
pub struct AdminLookup {
    cells: HashMap<u64, Vec<Admin>>,
}

/// The number under which the table holds a coordinate: its latitude and its
/// longitude, each moved to the non-negative numbers, side by side.
spec fn cell_key(coord: Coord) -> u64 {
    ((coord.decimicro_lat + 0x8000_0000) * 0x1_0000_0000 + (coord.decimicro_lon + 0x8000_0000)) as u64
}

fn key_of(coord: &Coord) -> (key: u64)
    ensures
        key == cell_key(*coord),
{
    let lat: u64 = (coord.decimicro_lat as i64 + 0x8000_0000) as u64;
    let lon: u64 = (coord.decimicro_lon as i64 + 0x8000_0000) as u64;
    lat * 0x1_0000_0000 + lon
}

proof fn lemma_cell_key_injective(a: Coord, b: Coord)
    requires
        cell_key(a) == cell_key(b),
    ensures
        a == b,
{
}

/// The regions that the table gives for `coord`: none where the coordinate
/// was never resolved.
pub open spec fn regions_at(table: Map<Coord, Seq<Admin>>, coord: Coord) -> Seq<Admin> {
    if table.contains_key(coord) {
        table[coord]
    } else {
        Seq::empty()
    }
}

/// A copy of a list of regions.
fn copy_admins(admins: &Vec<Admin>) -> (copy: Vec<Admin>)
    ensures
        copy@ == admins@,
{
    let mut copy: Vec<Admin> = Vec::new();
    let mut i: usize = 0;
    while i < admins.len()
        invariant
            i <= admins@.len(),
            copy@ == admins@.take(i as int),
        decreases admins@.len() - i,
    {
        copy.push(admins[i]);
        assert(copy@ =~= admins@.take(i + 1));
        i = i + 1;
    }
    assert(admins@.take(i as int) =~= admins@);
    copy
}

impl View for AdminLookup {
    type V = Map<Coord, Seq<Admin>>;

    closed spec fn view(&self) -> Map<Coord, Seq<Admin>> {
        Map::new(
            |coord: Coord| self.cells@.contains_key(cell_key(coord)),
            |coord: Coord| self.cells@[cell_key(coord)]@,
        )
    }
}

impl AdminLookup {
    pub fn new() -> (lookup: AdminLookup)
        ensures
            lookup@ == Map::<Coord, Seq<Admin>>::empty(),
    {
        let lookup = AdminLookup { cells: HashMap::new() };
        assert(lookup@ =~= Map::<Coord, Seq<Admin>>::empty());
        lookup
    }

    /// Records the regions that enclose `coord`, in place of what was recorded
    /// for it before.
    pub fn insert(&mut self, coord: Coord, admins: Vec<Admin>)
        ensures
            final(self)@ == old(self)@.insert(coord, admins@),
    {
        broadcast use vstd::std_specs::hash::group_hash_axioms;

        let key: u64 = key_of(&coord);
        self.cells.insert(key, admins);
        proof {
            assert forall|other: Coord| cell_key(other) == key implies other == coord by {
                lemma_cell_key_injective(other, coord);
            }
            assert(self@ =~= old(self)@.insert(coord, admins@));
        }
    }

    /// The regions that enclose `coord`.
    pub fn get(&self, coord: &Coord) -> (admins: Vec<Admin>)
        ensures
            admins@ == regions_at(self@, *coord),
    {
        broadcast use vstd::std_specs::hash::group_hash_axioms;

        let key: u64 = key_of(coord);
        match self.cells.get(&key) {
            Some(found) => copy_admins(found),
            None => Vec::new(),
        }
    }
}

/// Whether the identifiers increase strictly, so that none occurs twice.
pub open spec fn increasing(ids: Seq<u64>) -> bool {
    forall|i: int, j: int| 0 <= i < j < ids.len() ==> ids[i] < ids[j]
}

/// An increasing list of identifiers with `id` put in its place, unless it is
/// there already.
pub open spec fn with_id(ids: Seq<u64>, id: u64) -> Seq<u64>
    decreases ids.len(),
{
    if ids.len() == 0 {
        seq![id]
    } else if id < ids[0] {
        seq![id] + ids
    } else if id == ids[0] {
        ids
    } else {
        seq![ids[0]] + with_id(ids.drop_first(), id)
    }
}

/// The identities of the regions of `admins` that are at `level`, in
/// increasing order and each once.
pub open spec fn ids_at_level(admins: Seq<Admin>, level: u32) -> Seq<u64>
    decreases admins.len(),
{
    if admins.len() == 0 {
        Seq::empty()
    } else if admins.last().level == level {
        with_id(ids_at_level(admins.drop_last(), level), admins.last().id)
    } else {
        ids_at_level(admins.drop_last(), level)
    }
}

/// Whether `pos` is the place of `id` in `ids`: the identifiers before it are
/// smaller, the one at it is not.
pub open spec fn is_place(ids: Seq<u64>, id: u64, pos: int) -> bool {
    &&& 0 <= pos <= ids.len()
    &&& forall|j: int| 0 <= j < pos ==> ids[j] < id
    &&& pos < ids.len() ==> id <= ids[pos]
}

/// What a list becomes when `id` is put at its place `pos`.
pub open spec fn put_at(ids: Seq<u64>, id: u64, pos: int) -> Seq<u64> {
    if pos < ids.len() && ids[pos] == id {
        ids
    } else {
        ids.insert(pos, id)
    }
}

/// Putting an identifier in a list puts it at its place.
pub proof fn lemma_with_id_at(ids: Seq<u64>, id: u64, pos: int)
    requires
        is_place(ids, id, pos),
    ensures
        with_id(ids, id) == put_at(ids, id, pos),
    decreases ids.len(),
{
    let out = with_id(ids, id);
    if ids.len() == 0 {
        assert(out =~= ids.insert(0, id));
    } else if pos == 0 {
        if id < ids[0] {
            assert(out =~= ids.insert(0, id));
        }
    } else {
        let rest = ids.drop_first();
        assert(ids[0] < id);
        assert forall|j: int| 0 <= j < pos - 1 implies rest[j] < id by {
            assert(ids[j + 1] < id);
        }
        lemma_with_id_at(rest, id, pos - 1);
        if pos < ids.len() && ids[pos] == id {
            assert(rest[pos - 1] == id);
            assert(out =~= ids);
        } else {
            assert(out =~= ids.insert(pos, id));
        }
    }
}

/// An increasing list with an identifier put at its place is increasing, and
/// holds that identifier besides what it held.
pub proof fn lemma_put_at(ids: Seq<u64>, id: u64, pos: int)
    requires
        increasing(ids),
        is_place(ids, id, pos),
    ensures
        increasing(put_at(ids, id, pos)),
        forall|x: u64| #[trigger] put_at(ids, id, pos).contains(x) <==> (ids.contains(x) || x == id),
{
    let out = put_at(ids, id, pos);
    if pos < ids.len() && ids[pos] == id {
        assert forall|x: u64| out.contains(x) <==> (ids.contains(x) || x == id) by {
            if x == id {
                assert(ids[pos] == x);
            }
        }
    } else {
        assert forall|i: int, j: int| 0 <= i < j < out.len() implies out[i] < out[j] by {
            if j < pos {
                assert(ids[i] < ids[j]);
            } else if j == pos {
                assert(ids[i] < id);
            } else if i < pos {
                if i < j - 1 {
                    assert(ids[i] < ids[j - 1]);
                }
            } else if i == pos {
                if pos < j - 1 {
                    assert(ids[pos] < ids[j - 1]);
                }
            } else {
                assert(ids[i - 1] < ids[j - 1]);
            }
        }
        assert forall|x: u64| out.contains(x) <==> (ids.contains(x) || x == id) by {
            if out.contains(x) {
                let i = choose|i: int| 0 <= i < out.len() && out[i] == x;
                if i < pos {
                    assert(ids[i] == x);
                } else if i > pos {
                    assert(ids[i - 1] == x);
                }
            }
            if ids.contains(x) {
                let i = choose|i: int| 0 <= i < ids.len() && ids[i] == x;
                if i < pos {
                    assert(out[i] == x);
                } else {
                    assert(out[i + 1] == x);
                }
            }
            if x == id {
                assert(out[pos] == x);
            }
        }
    }
}

/// The place of `id` in an increasing list.
pub proof fn place_of(ids: Seq<u64>, id: u64) -> (pos: int)
    requires
        increasing(ids),
    ensures
        is_place(ids, id, pos),
    decreases ids.len(),
{
    if ids.len() == 0 || id <= ids[0] {
        0
    } else {
        let rest = ids.drop_first();
        assert forall|i: int, j: int| 0 <= i < j < rest.len() implies rest[i] < rest[j] by {
            assert(ids[i + 1] < ids[j + 1]);
        }
        let p = place_of(rest, id);
        assert forall|j: int| 0 <= j < p + 1 implies ids[j] < id by {
            if j > 0 {
                assert(rest[j - 1] < id);
            }
        }
        if p + 1 < ids.len() {
            assert(rest[p] == ids[p + 1]);
        }
        p + 1
    }
}

/// Putting an identifier in an increasing list keeps it increasing and adds
/// nothing but that identifier.
pub proof fn lemma_with_id(ids: Seq<u64>, id: u64)
    requires
        increasing(ids),
    ensures
        increasing(with_id(ids, id)),
        forall|x: u64| #[trigger] with_id(ids, id).contains(x) <==> (ids.contains(x) || x == id),
{
    let pos = place_of(ids, id);
    lemma_with_id_at(ids, id, pos);
    lemma_put_at(ids, id, pos);
}

/// Whether a region of `admins` at `level` has the identity `id`.
pub open spec fn has_region(admins: Seq<Admin>, level: u32, id: u64) -> bool {
    exists|i: int| 0 <= i < admins.len() && (#[trigger] admins[i]).level == level && admins[i].id == id
}

/// The identities at a level are in increasing order, and they are those of
/// the regions at that level.
pub proof fn lemma_ids_at_level(admins: Seq<Admin>, level: u32)
    ensures
        increasing(ids_at_level(admins, level)),
        forall|x: u64| #[trigger] ids_at_level(admins, level).contains(x) <==> has_region(admins, level, x),
    decreases admins.len(),
{
    let out = ids_at_level(admins, level);
    if admins.len() == 0 {
    } else {
        let front = admins.drop_last();
        let prev = ids_at_level(front, level);
        lemma_ids_at_level(front, level);
        let last = admins.last();
        if last.level == level {
            lemma_with_id(prev, last.id);
        }
        assert forall|x: u64| out.contains(x) implies has_region(admins, level, x) by {
            if prev.contains(x) {
                assert(has_region(front, level, x));
                let i = choose|i: int|
                    0 <= i < front.len() && (#[trigger] front[i]).level == level && front[i].id
                        == x;
                assert(admins[i] == front[i]);
            } else {
                assert(last.level == level && x == last.id);
                assert(admins[admins.len() - 1] == last);
            }
        }
        assert forall|x: u64| has_region(admins, level, x) implies out.contains(x) by {
            let i = choose|i: int|
                0 <= i < admins.len() && (#[trigger] admins[i]).level == level && admins[i].id
                    == x;
            if i < front.len() {
                assert(front[i] == admins[i]);
                assert(has_region(front, level, x));
                assert(prev.contains(x));
            } else {
                assert(admins[i] == last);
            }
            if last.level == level {
                assert(with_id(prev, last.id).contains(x));
            }
        }
    }
}

/// A set of administrative regions, held as the identities of its regions in
/// increasing order.
#[derive(Clone, Debug, PartialEq, Eq)]
pub struct AdminSet {
    ids: Vec<u64>,
}

impl View for AdminSet {
    type V = Seq<u64>;

    closed spec fn view(&self) -> Seq<u64> {
        self.ids@
    }
}

impl AdminSet {
    /// The invariant of the set: increasing identities.
    pub open spec fn wf(&self) -> bool {
        increasing(self@)
    }

    pub fn new() -> (set: AdminSet)
        ensures
            set.wf(),
            set@ == Seq::<u64>::empty(),
    {
        AdminSet { ids: Vec::new() }
    }

    pub fn len(&self) -> (n: usize)
        ensures
            n == self@.len(),
    {
        self.ids.len()
    }

    /// The identities of the set, in increasing order.
    pub fn ids(&self) -> (ids: &Vec<u64>)
        ensures
            ids@ == self@,
    {
        &self.ids
    }

    /// Whether the region with identity `id` is in the set.
    pub fn contains(&self, id: u64) -> (r: bool)
        ensures
            r == self@.contains(id),
    {
        let mut i: usize = 0;
        while i < self.ids.len()
            invariant
                i <= self.ids@.len(),
                forall|j: int| 0 <= j < i ==> self.ids@[j] != id,
            decreases self.ids@.len() - i,
        {
            if self.ids[i] == id {
                return true;
            }
            i = i + 1;
        }
        false
    }

    /// Adds the region with identity `id`, unless it is in the set already.
    pub fn insert(&mut self, id: u64)
        requires
            old(self).wf(),
        ensures
            final(self).wf(),
            final(self)@ == with_id(old(self)@, id),
            forall|x: u64| #[trigger] final(self)@.contains(x) <==> (old(self)@.contains(x) || x == id),
    {
        let mut pos: usize = 0;
        while pos < self.ids.len() && self.ids[pos] < id
            invariant
                pos <= self.ids@.len(),
                forall|j: int| 0 <= j < pos ==> self.ids@[j] < id,
            decreases self.ids@.len() - pos,
        {
            pos = pos + 1;
        }
        proof {
            lemma_with_id_at(self.ids@, id, pos as int);
            lemma_put_at(self.ids@, id, pos as int);
        }
        if pos < self.ids.len() && self.ids[pos] == id {
        } else {
            self.ids.insert(pos, id);
        }
        assert(self.ids@ == with_id(old(self).ids@, id));
    }
}

/// The set of the regions of `admins` that are at `level`.
pub fn admins_at_level(admins: &Vec<Admin>, level: u32) -> (set: AdminSet)
    ensures
        set.wf(),
        set@ == ids_at_level(admins@, level),
{
    let mut set: AdminSet = AdminSet::new();
    let mut i: usize = 0;
    while i < admins.len()
        invariant
            i <= admins@.len(),
            set.wf(),
            set@ == ids_at_level(admins@.take(i as int), level),
        decreases admins@.len() - i,
    {
        let ghost upto = admins@.take(i + 1);
        assert(upto.drop_last() =~= admins@.take(i as int));
        assert(upto.last() == admins@[i as int]);
        if admins[i].level == level {
            set.insert(admins[i].id);
        }
        i = i + 1;
    }
    assert(admins@.take(i as int) =~= admins@);
    set
}

} // verus!
