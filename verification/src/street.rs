//! Street extraction: one street document per logical street, out of ways
//! that may describe one street in several pieces.
use crate::admin::{ids_at_level, regions_at, Admin, AdminLookup, AdminSet, Coord};
use crate::osm::{find, has_text, has_value, tag_map, tag_value, ObjMap, OsmId, OsmObj, Ref};
use crate::osm::{Relation, Way};
use crate::street::groups::grouped_phase;
use crate::street::relations::relation_phase;
use crate::street::theorems::lemma_weight_from_city;
use crate::text::{codes, compare_ids, compare_text, decimal, decimal_string, ids_lt, numbers};
use crate::text::{text_lt};
use crate::text::{lemma_lex_asymmetric, lemma_lex_transitive, Placement};
use vstd::prelude::*;
use vstd::string::*;

mod groups;
pub mod theorems;
mod relations;

verus! {

/// What a street key stands for: a name, and the identities of the regions at
/// the city level, in increasing order.
pub struct StreetKeyView {
    pub name: Seq<char>,
    pub admins: Seq<u64>,
}

/// The key under which ways are taken for one street: their name and the set
/// of regions at the city level that enclose them.
#[derive(Clone, Debug, PartialEq, Eq)]
pub struct StreetKey {
    pub name: String,
    pub admins: AdminSet,
}

impl View for StreetKey {
    type V = StreetKeyView;

    open spec fn view(&self) -> StreetKeyView {
        StreetKeyView { name: self.name@, admins: self.admins@ }
    }
}

/// The order of street keys: by name, then by region set.
pub open spec fn key_lt(a: StreetKeyView, b: StreetKeyView) -> bool {
    text_lt(a.name, b.name) || (a.name == b.name && ids_lt(a.admins, b.admins))
}

/// A key that comes before another differs from it and does not come after
/// it.
pub proof fn lemma_key_lt_asymmetric(a: StreetKeyView, b: StreetKeyView)
    requires
        key_lt(a, b),
    ensures
        a != b,
        !key_lt(b, a),
{
    if text_lt(a.name, b.name) {
        lemma_lex_asymmetric(codes(a.name), codes(b.name));
    } else {
        lemma_lex_asymmetric(numbers(a.admins), numbers(b.admins));
        if text_lt(b.name, a.name) {
            lemma_lex_asymmetric(codes(b.name), codes(a.name));
        }
    }
}

/// The order of street keys is transitive.
pub proof fn lemma_key_lt_transitive(a: StreetKeyView, b: StreetKeyView, c: StreetKeyView)
    requires
        key_lt(a, b),
        key_lt(b, c),
    ensures
        key_lt(a, c),
{
    if text_lt(a.name, b.name) && text_lt(b.name, c.name) {
        lemma_lex_transitive(codes(a.name), codes(b.name), codes(c.name));
    } else if a.name == b.name && b.name == c.name {
        lemma_lex_transitive(numbers(a.admins), numbers(b.admins), numbers(c.admins));
    }
}

impl StreetKey {
    /// Places this key against `other` in the order of street keys.
    pub fn compare(&self, other: &StreetKey) -> (r: Placement)
        ensures
            r is Before <==> key_lt(self@, other@),
            r is Same <==> self@ == other@,
            r is After <==> key_lt(other@, self@),
    {
        let by_name: Placement = compare_text(self.name.as_str(), other.name.as_str());
        let r: Placement = match by_name {
            Placement::Same => compare_ids(self.admins.ids(), other.admins.ids()),
            _ => by_name,
        };
        proof {
            if key_lt(self@, other@) {
                lemma_key_lt_asymmetric(self@, other@);
            }
            if key_lt(other@, self@) {
                lemma_key_lt_asymmetric(other@, self@);
            }
        }
        r
    }
}

/// What a street document stands for, but for its label and its zip codes,
/// which are what the formatter and the extractor of the caller make of it.
pub struct StreetView {
    pub id: Seq<char>,
    pub name: Seq<char>,
    pub weight: u32,
    pub admins: Seq<Admin>,
    pub coord: Option<Coord>,
}

/// A street document: one logical street, identified by the way that stands
/// for it.
#[derive(Clone, Debug, PartialEq, Eq)]
pub struct Street {
    pub id: String,
    pub name: String,
    pub label: String,
    pub weight: u32,
    pub zip_codes: Vec<String>,
    pub administrative_regions: Vec<Admin>,
    pub coord: Option<Coord>,
}

impl View for Street {
    type V = StreetView;

    open spec fn view(&self) -> StreetView {
        StreetView {
            id: self.id@,
            name: self.name@,
            weight: self.weight,
            admins: self.administrative_regions@,
            coord: self.coord,
        }
    }
}

/// What a list of street documents stands for.
pub open spec fn views(streets: Seq<Street>) -> Seq<StreetView> {
    Seq::new(streets.len(), |i: int| streets[i]@)
}

/// Whether an object is one that street extraction starts from: a way with a
/// `highway` tag and a `name` tag, neither empty, or a relation whose `type`
/// is `associatedStreet`.
pub open spec fn valid_obj(obj: OsmObj) -> bool {
    match obj {
        OsmObj::Way(way) => has_text(way.tags, "highway"@) && has_text(way.tags, "name"@),
        OsmObj::Relation(rel) => has_value(rel.tags, "type"@, "associatedStreet"@),
        OsmObj::Node(_) => false,
    }
}

/// The coordinate of the node `node`, if the graph holds that node.
pub open spec fn node_coord(graph: Seq<OsmObj>, node: i64) -> Option<Coord> {
    match find(graph, OsmId::Node(node)) {
        Some(OsmObj::Node(n)) => Some(
            Coord { decimicro_lat: n.decimicro_lat, decimicro_lon: n.decimicro_lon },
        ),
        _ => None,
    }
}

/// The coordinate of the first of `nodes`, from position `from` on, that the
/// graph holds.
pub open spec fn first_coord(graph: Seq<OsmObj>, nodes: Seq<i64>, from: int) -> Option<Coord>
    decreases nodes.len() - from,
{
    if from < 0 || from >= nodes.len() {
        None
    } else {
        match node_coord(graph, nodes[from]) {
            Some(coord) => Some(coord),
            None => first_coord(graph, nodes, from + 1),
        }
    }
}

/// The coordinate that stands for a way: that of its first node that the
/// graph holds.
pub open spec fn way_coord(graph: Seq<OsmObj>, way: Way) -> Option<Coord> {
    first_coord(graph, way.nodes@, 0)
}

/// The regions that enclose a way: those at its coordinate, and none for a
/// way without a coordinate.
pub open spec fn way_admins(graph: Seq<OsmObj>, table: Map<Coord, Seq<Admin>>, way: Way) -> Seq<
    Admin,
> {
    match way_coord(graph, way) {
        Some(coord) => regions_at(table, coord),
        None => Seq::empty(),
    }
}

/// The street document made from `way` under the name `name`.
pub open spec fn street_of(
    graph: Seq<OsmObj>,
    table: Map<Coord, Seq<Admin>>,
    way: Way,
    name: Seq<char>,
) -> StreetView {
    StreetView {
        id: decimal(way.id as int),
        name,
        weight: 1,
        admins: way_admins(graph, table, way),
        coord: way_coord(graph, way),
    }
}

/// The position of the first of `admins`, from position `from` on, that is
/// at `level`.
pub open spec fn first_at_level(admins: Seq<Admin>, level: u32, from: int) -> Option<int>
    decreases admins.len() - from,
{
    if from < 0 || from >= admins.len() {
        None
    } else if admins[from].level == level {
        Some(from)
    } else {
        first_at_level(admins, level, from + 1)
    }
}

/// The weight that a street takes from its regions: that of its first region
/// at `level`, and the weight it has where it has no such region.
pub open spec fn city_weight(street: StreetView, level: u32) -> u32 {
    match first_at_level(street.admins, level, 0) {
        Some(k) => street.admins[k].weight,
        None => street.weight,
    }
}

/// A street document with the weight that it takes from its regions.
pub open spec fn weighted(street: StreetView, level: u32) -> StreetView {
    StreetView { weight: city_weight(street, level), ..street }
}

/// Whether an object is a relation that groups the ways of one street.
pub open spec fn street_relation(obj: OsmObj) -> bool {
    match obj {
        OsmObj::Relation(rel) => has_value(rel.tags, "type"@, "associatedStreet"@),
        _ => false,
    }
}

/// The name under which a member way of a relation is taken: the name of the
/// relation where it has one, else the name of the way.
pub open spec fn member_name(rel: Relation, way: Way) -> Option<Seq<char>> {
    if tag_map(rel.tags).contains_key("name"@) {
        Some(tag_map(rel.tags)["name"@])
    } else if tag_map(way.tags).contains_key("name"@) {
        Some(tag_map(way.tags)["name"@])
    } else {
        None
    }
}

/// The street document that a member of a relation gives: one where the
/// member is a way in the role `street` that the graph holds and whose name is
/// not empty.
pub open spec fn member_street(
    graph: Seq<OsmObj>,
    table: Map<Coord, Seq<Admin>>,
    rel: Relation,
    member: Ref,
) -> Option<StreetView> {
    if member.member is Way && member.role@ == "street"@ {
        match find(graph, member.member) {
            Some(OsmObj::Way(way)) => match member_name(rel, way) {
                Some(name) => if name.len() > 0 {
                    Some(street_of(graph, table, way, name))
                } else {
                    None
                },
                None => None,
            },
            _ => None,
        }
    } else {
        None
    }
}

/// The street document of the first member of `rel`, from position `from` on,
/// that gives one.
pub open spec fn relation_street_from(
    graph: Seq<OsmObj>,
    table: Map<Coord, Seq<Admin>>,
    rel: Relation,
    from: int,
) -> Option<StreetView>
    decreases rel.refs@.len() - from,
{
    if from < 0 || from >= rel.refs@.len() {
        None
    } else {
        match member_street(graph, table, rel, rel.refs@[from]) {
            Some(street) => Some(street),
            None => relation_street_from(graph, table, rel, from + 1),
        }
    }
}

/// The street document that an object gives as a relation: that of the first
/// member that gives one, for a relation that groups the ways of a street.
pub open spec fn relation_street(graph: Seq<OsmObj>, table: Map<Coord, Seq<Admin>>, obj: OsmObj) -> Option<
    StreetView,
> {
    match obj {
        OsmObj::Relation(rel) => if street_relation(obj) {
            relation_street_from(graph, table, rel, 0)
        } else {
            None
        },
        _ => None,
    }
}

/// The street documents that the first `upto` objects of the graph give as
/// relations, in the order of the graph.
pub open spec fn relation_streets(graph: Seq<OsmObj>, table: Map<Coord, Seq<Admin>>, upto: int) -> Seq<
    StreetView,
>
    decreases upto,
{
    if upto <= 0 {
        Seq::empty()
    } else {
        let before = relation_streets(graph, table, upto - 1);
        match relation_street(graph, table, graph[upto - 1]) {
            Some(street) => before.push(street),
            None => before,
        }
    }
}

/// Whether `id` is a way among the first `upto` members of `rel`.
pub open spec fn member_upto(rel: Relation, upto: int, id: OsmId) -> bool {
    id is Way && exists|k: int| 0 <= k < upto && k < rel.refs@.len() && (#[trigger] rel.refs@[k]).member == id
}

/// Whether `obj` is a relation that groups the ways of a street and has the
/// way `id` as a member.
pub open spec fn claims(obj: OsmObj, id: OsmId) -> bool {
    match obj {
        OsmObj::Relation(rel) => street_relation(obj) && member_upto(rel, rel.refs@.len() as int, id),
        _ => false,
    }
}

/// Whether one of the first `upto` objects of the graph claims the way `id`.
pub open spec fn claimed_upto(graph: Seq<OsmObj>, upto: int, id: OsmId) -> bool {
    exists|i: int| 0 <= i < upto && i < graph.len() && claims(#[trigger] graph[i], id)
}

/// Whether the way `id` is a member of a relation that groups the ways of a
/// street, and so is no street of its own.
pub open spec fn claimed(graph: Seq<OsmObj>, id: OsmId) -> bool {
    claimed_upto(graph, graph.len() as int, id)
}

/// The name of a way.
pub open spec fn way_name(way: Way) -> Seq<char> {
    tag_map(way.tags)["name"@]
}

/// Whether the object at position `i` of the graph is a way that is taken by
/// itself: one that no relation claims, with a name that is not empty.
pub open spec fn eligible(graph: Seq<OsmObj>, i: int) -> bool {
    0 <= i < graph.len() && match graph[i] {
        OsmObj::Way(way) => !claimed(graph, graph[i].osm_id()) && has_text(way.tags, "name"@),
        _ => false,
    }
}

/// The way at position `i` of the graph.
pub open spec fn way_at(graph: Seq<OsmObj>, i: int) -> Way {
    match graph[i] {
        OsmObj::Way(way) => way,
        _ => arbitrary(),
    }
}

/// The street document made from the way at position `i`, under its own name.
pub open spec fn street_at(graph: Seq<OsmObj>, table: Map<Coord, Seq<Admin>>, i: int) -> StreetView {
    street_of(graph, table, way_at(graph, i), way_name(way_at(graph, i)))
}

/// The key of a street document: its name and its regions at `level`.
pub open spec fn street_key(street: StreetView, level: u32) -> StreetKeyView {
    StreetKeyView { name: street.name, admins: ids_at_level(street.admins, level) }
}

/// The key of the way at position `i`.
pub open spec fn key_at(graph: Seq<OsmObj>, table: Map<Coord, Seq<Admin>>, level: u32, i: int) -> StreetKeyView {
    street_key(street_at(graph, table, i), level)
}

/// Whether the way at position `i` stands for its street: it is taken by
/// itself, and no way before it that is taken by itself has its key.
pub open spec fn is_representative(
    graph: Seq<OsmObj>,
    table: Map<Coord, Seq<Admin>>,
    level: u32,
    i: int,
) -> bool {
    eligible(graph, i) && forall|j: int|
        0 <= j < i && #[trigger] eligible(graph, j) ==> key_at(graph, table, level, j) != key_at(
            graph,
            table,
            level,
            i,
        )
}

/// Whether `street` is the document of the way at position `i`, and that way
/// stands for its street.
pub open spec fn stands_for(
    graph: Seq<OsmObj>,
    table: Map<Coord, Seq<Admin>>,
    level: u32,
    street: StreetView,
    i: int,
) -> bool {
    is_representative(graph, table, level, i) && street == street_at(graph, table, i)
}

/// Whether `street` is the document of a way that stands for its street.
pub open spec fn from_representative(
    graph: Seq<OsmObj>,
    table: Map<Coord, Seq<Admin>>,
    level: u32,
    street: StreetView,
) -> bool {
    exists|i: int| #[trigger] stands_for(graph, table, level, street, i)
}

/// Whether `out` holds the street documents of the ways that are taken by
/// themselves: one for each way that stands for its street and no other, in
/// the order of their keys.
pub open spec fn grouped_streets(
    graph: Seq<OsmObj>,
    table: Map<Coord, Seq<Admin>>,
    level: u32,
    out: Seq<StreetView>,
) -> bool {
    &&& forall|j: int| 0 <= j < out.len() ==> from_representative(graph, table, level, #[trigger] out[j])
    &&& forall|i: int| #[trigger]
        is_representative(graph, table, level, i) ==> out.contains(street_at(graph, table, i))
    &&& forall|j: int, k: int|
        0 <= j < k < out.len() ==> key_lt(
            street_key(#[trigger] out[j], level),
            street_key(#[trigger] out[k], level),
        )
}

/// Whether `out` is the list of street documents of the graph: first those
/// that its relations give, in the order of the graph, then those of the ways
/// that are taken by themselves, in the order of their keys.
pub open spec fn is_street_list(
    graph: Seq<OsmObj>,
    table: Map<Coord, Seq<Admin>>,
    level: u32,
    out: Seq<StreetView>,
) -> bool {
    let from_relations = relation_streets(graph, table, graph.len() as int);
    &&& from_relations.len() <= out.len()
    &&& out.take(from_relations.len() as int) == from_relations
    &&& grouped_streets(graph, table, level, out.skip(from_relations.len() as int))
}

/// Whether the formatter of labels and the extractor of zip codes take every
/// input.
pub open spec fn callable<L, Z>(format_label: L, zip_codes: Z) -> bool
    where
        L: Fn(&Vec<Admin>, u32, &String) -> String,
        Z: Fn(&Vec<Admin>) -> Vec<String>,
{
    &&& forall|admins: &Vec<Admin>, level: u32, name: &String| #[trigger]
        format_label.requires((admins, level, name))
    &&& forall|admins: &Vec<Admin>| #[trigger] zip_codes.requires((admins,))
}

/// Whether the label of `street` is what the formatter gives for its regions,
/// the city level and its name, and its zip codes are what the extractor
/// gives for its regions.
pub open spec fn decorated<L, Z>(street: Street, level: u32, format_label: L, zip_codes: Z) -> bool
    where
        L: Fn(&Vec<Admin>, u32, &String) -> String,
        Z: Fn(&Vec<Admin>) -> Vec<String>,
{
    &&& format_label.ensures((&street.administrative_regions, level, &street.name), street.label)
    &&& zip_codes.ensures((&street.administrative_regions,), street.zip_codes)
}

/// Whether every street of the list has the label and the zip codes that the
/// formatter and the extractor give.
pub open spec fn all_decorated<L, Z>(
    streets: Seq<Street>,
    level: u32,
    format_label: L,
    zip_codes: Z,
) -> bool
    where
        L: Fn(&Vec<Admin>, u32, &String) -> String,
        Z: Fn(&Vec<Admin>) -> Vec<String>,
{
    forall|j: int| 0 <= j < streets.len() ==> decorated(#[trigger] streets[j], level, format_label, zip_codes)
}

/// Whether the tags hold `key` with a value that is not empty.
fn tag_has_text(tags: &osmpbfreader::Tags, key: &str) -> (r: bool)
    ensures
        r == has_text(*tags, key@),
{
    match tag_value(tags, key) {
        Some(value) => !value.as_str().is_empty(),
        None => false,
    }
}

/// Whether `rel` groups the ways of one street.
fn is_street_relation(rel: &Relation) -> (r: bool)
    ensures
        r == has_value(rel.tags, "type"@, "associatedStreet"@),
{
    match tag_value(&rel.tags, "type") {
        Some(value) => {
            let wanted: String = String::from_str("associatedStreet");
            value == wanted
        },
        None => false,
    }
}

/// Whether street extraction starts from `obj`.
pub fn is_valid_obj(obj: &OsmObj) -> (valid: bool)
    ensures
        valid == valid_obj(*obj),
{
    match obj {
        OsmObj::Way(way) => tag_has_text(&way.tags, "highway") && tag_has_text(&way.tags, "name"),
        OsmObj::Relation(rel) => is_street_relation(rel),
        OsmObj::Node(_) => false,
    }
}

/// The coordinate that stands for `way`.
pub fn get_way_coord(obj_map: &ObjMap, way: &Way) -> (coord: Option<Coord>)
    requires
        obj_map.wf(),
    ensures
        coord == way_coord(obj_map@, *way),
{
    let mut i: usize = 0;
    while i < way.nodes.len()
        invariant
            obj_map.wf(),
            i <= way.nodes@.len(),
            way_coord(obj_map@, *way) == first_coord(obj_map@, way.nodes@, i as int),
        decreases way.nodes@.len() - i,
    {
        let id: OsmId = OsmId::Node(way.nodes[i]);
        match obj_map.get(&id) {
            Some(obj) => {
                match obj {
                    OsmObj::Node(n) => {
                        return Some(
                            Coord { decimicro_lat: n.decimicro_lat, decimicro_lon: n.decimicro_lon },
                        );
                    },
                    _ => {},
                }
            },
            None => {},
        }
        i = i + 1;
    }
    None
}

/// The regions that enclose `way`.
pub fn get_street_admin(admins_geofinder: &AdminLookup, obj_map: &ObjMap, way: &Way) -> (admins:
    Vec<Admin>)
    requires
        obj_map.wf(),
    ensures
        admins@ == way_admins(obj_map@, admins_geofinder@, *way),
{
    match get_way_coord(obj_map, way) {
        Some(coord) => admins_geofinder.get(&coord),
        None => Vec::new(),
    }
}

/// The street document made from `way` under the name `name`.
fn make_street<L, Z>(
    admins_geofinder: &AdminLookup,
    obj_map: &ObjMap,
    way: &Way,
    name: String,
    city_level: u32,
    format_label: &L,
    zip_codes: &Z,
) -> (street: Street)
    where
        L: Fn(&Vec<Admin>, u32, &String) -> String,
        Z: Fn(&Vec<Admin>) -> Vec<String>,
    requires
        obj_map.wf(),
        callable(*format_label, *zip_codes),
    ensures
        street@ == street_of(obj_map@, admins_geofinder@, *way, name@),
        decorated(street, city_level, *format_label, *zip_codes),
{
    let admins: Vec<Admin> = get_street_admin(admins_geofinder, obj_map, way);
    let label: String = format_label(&admins, city_level, &name);
    let zips: Vec<String> = zip_codes(&admins);
    Street {
        id: decimal_string(way.id),
        name,
        label,
        weight: 1,
        zip_codes: zips,
        administrative_regions: admins,
        coord: get_way_coord(obj_map, way),
    }
}

/// Adding a document to a list adds what it stands for.
proof fn lemma_views_push(list: Seq<Street>, street: Street)
    ensures
        views(list.push(street)) == views(list).push(street@),
{
    assert(views(list.push(street)) =~= views(list).push(street@));
}

/// Gives each street the weight of its first region at `city_level`; a street
/// with no such region keeps its weight.
pub fn compute_street_weight(streets: &mut Vec<Street>, city_level: u32)
    ensures
        final(streets)@.len() == old(streets)@.len(),
        forall|i: int|
            0 <= i < old(streets)@.len() ==> (#[trigger] final(streets)@[i]) == (Street {
                weight: city_weight(old(streets)@[i]@, city_level),
                ..old(streets)@[i]
            }),
        views(final(streets)@) == Seq::new(
            old(streets)@.len(),
            |i: int| weighted(old(streets)@[i]@, city_level),
        ),
{
    let mut i: usize = 0;
    while i < streets.len()
        invariant
            i <= streets@.len(),
            streets@.len() == old(streets)@.len(),
            forall|j: int|
                0 <= j < i ==> (#[trigger] streets@[j]) == (Street {
                    weight: city_weight(old(streets)@[j]@, city_level),
                    ..old(streets)@[j]
                }),
            forall|j: int| i <= j < streets@.len() ==> (#[trigger] streets@[j]) == old(streets)@[j],
        decreases streets@.len() - i,
    {
        let mut k: usize = 0;
        let mut found: Option<u32> = None;
        while k < streets[i].administrative_regions.len() && found.is_none()
            invariant
                i < streets@.len(),
                k <= streets@[i as int].administrative_regions@.len(),
                found is None ==> first_at_level(
                    streets@[i as int].administrative_regions@,
                    city_level,
                    0,
                ) == first_at_level(
                    streets@[i as int].administrative_regions@,
                    city_level,
                    k as int,
                ),
                found is Some ==> {
                    let at = first_at_level(
                        streets@[i as int].administrative_regions@,
                        city_level,
                        0,
                    );
                    at is Some && streets@[i as int].administrative_regions@[at->0].weight
                        == found->0
                },
            decreases
                streets@[i as int].administrative_regions@.len() - k + (if found is None {
                    1int
                } else {
                    0int
                }),
        {
            let admin: Admin = streets[i].administrative_regions[k];
            if admin.level == city_level {
                found = Some(admin.weight);
            } else {
                k = k + 1;
            }
        }
        match found {
            Some(weight) => {
                streets[i].weight = weight;
            },
            None => {},
        }
        i = i + 1;
    }
    assert(views(streets@) =~= Seq::new(
        old(streets)@.len(),
        |i: int| weighted(old(streets)@[i]@, city_level),
    ));
}

/// The street documents of the graph.
///
/// A relation that groups the ways of a street gives one document, made from
/// its first member way in the role `street` that the graph holds and that has
/// a name, and claims all its member ways. The other named ways are taken
/// together by name and by the regions at `city_level` that enclose them, and
/// each such group gives one document, made from its first way. Every
/// document has the weight 1, and the label and the zip codes that
/// `format_label` and `zip_codes` give for it.
pub fn streets<L, Z>(
    obj_map: &ObjMap,
    admins_geofinder: &AdminLookup,
    city_level: u32,
    format_label: L,
    zip_codes: Z,
) -> (street_list: Vec<Street>)
    where
        L: Fn(&Vec<Admin>, u32, &String) -> String,
        Z: Fn(&Vec<Admin>) -> Vec<String>,
    requires
        obj_map.wf(),
        callable(format_label, zip_codes),
    ensures
        is_street_list(obj_map@, admins_geofinder@, city_level, views(street_list@)),
        all_decorated(street_list@, city_level, format_label, zip_codes),
        forall|j: int| 0 <= j < street_list@.len() ==> (#[trigger] street_list@[j]).weight == 1,
{
    let (mut street_list, street_rel) = relation_phase(
        admins_geofinder,
        obj_map,
        city_level,
        &format_label,
        &zip_codes,
    );
    grouped_phase(
        admins_geofinder,
        obj_map,
        city_level,
        &street_rel,
        &mut street_list,
        &format_label,
        &zip_codes,
    );
    proof {
        assert forall|j: int| 0 <= j < street_list@.len() implies (#[trigger] street_list@[j]).weight
            == 1 by {
            lemma_weight_from_city(
                obj_map@,
                admins_geofinder@,
                city_level,
                views(street_list@),
                j,
            );
        }
    }
    street_list
}

} // verus!
