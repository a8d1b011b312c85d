//! What holds of the street documents of every graph.
use crate::admin::{Admin, Coord};
use crate::osm::{holds, OsmId, OsmObj, Ref, Relation, Way};
use crate::street::{claimed_upto, claims, eligible, first_at_level, first_coord};
use crate::street::{from_representative};
use crate::street::{grouped_streets, is_representative, is_street_list, key_at, member_street};
use crate::street::{node_coord};
use crate::street::member_upto;
use crate::street::{relation_street, relation_street_from, relation_streets, stands_for, street_at};
use crate::street::{street_key};
use crate::street::{lemma_key_lt_asymmetric, street_of, way_admins, way_at, way_coord, weighted};
use crate::street::{StreetView};
use crate::text::{decimal, lemma_decimal_injective};
use vstd::prelude::*;

verus! {

/// No two street documents of ways taken by themselves have both the same
/// name and the same regions at the city level.
pub proof fn lemma_grouped_keys_differ(
    graph: Seq<OsmObj>,
    table: Map<Coord, Seq<Admin>>,
    level: u32,
    out: Seq<StreetView>,
    j: int,
    k: int,
)
    requires
        is_street_list(graph, table, level, out),
        relation_streets(graph, table, graph.len() as int).len() <= j < out.len(),
        relation_streets(graph, table, graph.len() as int).len() <= k < out.len(),
        j != k,
    ensures
        street_key(out[j], level) != street_key(out[k], level),
{
    let first = relation_streets(graph, table, graph.len() as int).len() as int;
    let ways = out.skip(first);
    assert(ways[j - first] == out[j]);
    assert(ways[k - first] == out[k]);
    if j < k {
        lemma_key_lt_asymmetric(street_key(out[j], level), street_key(out[k], level));
    } else {
        lemma_key_lt_asymmetric(street_key(out[k], level), street_key(out[j], level));
    }
}

/// Whether member `k` of `rel` is the first, from position `from` on, that
/// gives a street document.
pub open spec fn first_giving(
    graph: Seq<OsmObj>,
    table: Map<Coord, Seq<Admin>>,
    rel: Relation,
    from: int,
    k: int,
) -> bool {
    &&& from <= k < rel.refs@.len()
    &&& member_street(graph, table, rel, rel.refs@[k]) is Some
    &&& forall|m: int|
        from <= m < k ==> member_street(graph, table, rel, #[trigger] rel.refs@[m]) is None
}

/// A relation gives the street document of its first member that gives one,
/// and none where no member gives one.
pub proof fn lemma_first_member(
    graph: Seq<OsmObj>,
    table: Map<Coord, Seq<Admin>>,
    rel: Relation,
    from: int,
)
    requires
        0 <= from,
    ensures
        match relation_street_from(graph, table, rel, from) {
            Some(street) => exists|k: int| #[trigger]
                first_giving(graph, table, rel, from, k) && member_street(
                    graph,
                    table,
                    rel,
                    rel.refs@[k],
                ) == Some(street),
            None => forall|k: int|
                from <= k < rel.refs@.len() ==> member_street(
                    graph,
                    table,
                    rel,
                    #[trigger] rel.refs@[k],
                ) is None,
        },
    decreases rel.refs@.len() - from,
{
    if from < rel.refs@.len() {
        match member_street(graph, table, rel, rel.refs@[from]) {
            Some(street) => {
                assert(first_giving(graph, table, rel, from, from));
            },
            None => {
                lemma_first_member(graph, table, rel, from + 1);
                match relation_street_from(graph, table, rel, from + 1) {
                    Some(street) => {
                        let k = choose|k: int| #[trigger]
                            first_giving(graph, table, rel, from + 1, k) && member_street(
                                graph,
                                table,
                                rel,
                                rel.refs@[k],
                            ) == Some(street);
                        assert(first_giving(graph, table, rel, from, k));
                    },
                    None => {},
                }
            },
        }
    }
}

/// Each object of the graph adds at most one document to those that the
/// relations give: exactly one, last in the list, where it is a relation that
/// gives a street document.
pub proof fn lemma_relation_gives_one(graph: Seq<OsmObj>, table: Map<Coord, Seq<Admin>>, r: int)
    requires
        0 <= r < graph.len(),
    ensures
        match relation_street(graph, table, graph[r]) {
            Some(street) => relation_streets(graph, table, r + 1) == relation_streets(
                graph,
                table,
                r,
            ).push(street),
            None => relation_streets(graph, table, r + 1) == relation_streets(graph, table, r),
        },
{
}

/// A way that is a member of a relation that groups the ways of a street has
/// no street document among those of the ways taken by themselves.
pub proof fn lemma_members_not_standalone(
    graph: Seq<OsmObj>,
    table: Map<Coord, Seq<Admin>>,
    level: u32,
    out: Seq<StreetView>,
    r: int,
    way: i64,
    j: int,
)
    requires
        is_street_list(graph, table, level, out),
        0 <= r < graph.len(),
        claims(graph[r], OsmId::Way(way)),
        relation_streets(graph, table, graph.len() as int).len() <= j < out.len(),
    ensures
        out[j].id != decimal(way as int),
{
    let first = relation_streets(graph, table, graph.len() as int).len() as int;
    let ways = out.skip(first);
    assert(ways[j - first] == out[j]);
    assert(from_representative(graph, table, level, ways[j - first]));
    let i = choose|i: int| #[trigger] stands_for(graph, table, level, out[j], i);
    assert(eligible(graph, i));
    assert(claimed_upto(graph, graph.len() as int, OsmId::Way(way)));
    if out[j].id == decimal(way as int) {
        lemma_decimal_injective(way_at(graph, i).id as int, way as int);
    }
}

/// A way with no node that the graph holds has no coordinate and no regions,
/// and so has the street document made from it.
pub proof fn lemma_no_coordinate(
    graph: Seq<OsmObj>,
    table: Map<Coord, Seq<Admin>>,
    way: Way,
    name: Seq<char>,
    level: u32,
)
    requires
        forall|k: int| 0 <= k < way.nodes@.len() ==> node_coord(graph, #[trigger] way.nodes@[k]) is None,
    ensures
        way_coord(graph, way) is None,
        way_admins(graph, table, way) == Seq::<Admin>::empty(),
        street_of(graph, table, way, name).admins == Seq::<Admin>::empty(),
        street_key(street_of(graph, table, way, name), level).admins == Seq::<u64>::empty(),
{
    lemma_first_coord_none(graph, way.nodes@, 0);
}

proof fn lemma_first_coord_none(graph: Seq<OsmObj>, nodes: Seq<i64>, from: int)
    requires
        0 <= from,
        forall|k: int| 0 <= k < nodes.len() ==> node_coord(graph, #[trigger] nodes[k]) is None,
    ensures
        first_coord(graph, nodes, from) is None,
    decreases nodes.len() - from,
{
    if from < nodes.len() {
        lemma_first_coord_none(graph, nodes, from + 1);
    }
}

/// The first region at a level is at that level, and no region before it is.
pub proof fn lemma_first_at_level(admins: Seq<Admin>, level: u32, from: int)
    requires
        0 <= from,
    ensures
        match first_at_level(admins, level, from) {
            Some(k) => from <= k < admins.len() && admins[k].level == level && forall|m: int|
                from <= m < k ==> (#[trigger] admins[m]).level != level,
            None => forall|m: int| from <= m < admins.len() ==> (#[trigger] admins[m]).level != level,
        },
    decreases admins.len() - from,
{
    if from < admins.len() && admins[from].level != level {
        lemma_first_at_level(admins, level, from + 1);
    }
}

proof fn lemma_relation_street_weight(
    graph: Seq<OsmObj>,
    table: Map<Coord, Seq<Admin>>,
    rel: Relation,
    from: int,
)
    requires
        0 <= from,
    ensures
        relation_street_from(graph, table, rel, from) is Some ==> relation_street_from(
            graph,
            table,
            rel,
            from,
        )->0.weight == 1,
    decreases rel.refs@.len() - from,
{
    if from < rel.refs@.len() && member_street(graph, table, rel, rel.refs@[from]) is None {
        lemma_relation_street_weight(graph, table, rel, from + 1);
    }
}

proof fn lemma_relation_streets_weight(
    graph: Seq<OsmObj>,
    table: Map<Coord, Seq<Admin>>,
    upto: int,
    j: int,
)
    requires
        0 <= j < relation_streets(graph, table, upto).len(),
    ensures
        relation_streets(graph, table, upto)[j].weight == 1,
    decreases upto,
{
    if upto > 0 {
        let before = relation_streets(graph, table, upto - 1);
        if j < before.len() {
            lemma_relation_streets_weight(graph, table, upto - 1, j);
        } else {
            match graph[upto - 1] {
                OsmObj::Relation(rel) => {
                    lemma_relation_street_weight(graph, table, rel, 0);
                },
                _ => {},
            }
        }
    }
}

/// Every street document of the graph has the weight 1, so that once it has
/// taken its weight from its regions it has the weight of its first region at
/// the city level, and the weight 1 where it has no region at that level.
pub proof fn lemma_weight_from_city(
    graph: Seq<OsmObj>,
    table: Map<Coord, Seq<Admin>>,
    level: u32,
    out: Seq<StreetView>,
    j: int,
)
    requires
        is_street_list(graph, table, level, out),
        0 <= j < out.len(),
    ensures
        out[j].weight == 1,
        weighted(out[j], level).weight == (match first_at_level(out[j].admins, level, 0) {
            Some(k) => out[j].admins[k].weight,
            None => 1,
        }),
{
    let from_relations = relation_streets(graph, table, graph.len() as int);
    let first = from_relations.len() as int;
    if j < first {
        assert(out.take(first)[j] == out[j]);
        lemma_relation_streets_weight(graph, table, graph.len() as int, j);
    } else {
        let ways = out.skip(first);
        assert(ways[j - first] == out[j]);
        assert(from_representative(graph, table, level, ways[j - first]));
    }
}

proof fn lemma_grouped_prefix(
    graph: Seq<OsmObj>,
    table: Map<Coord, Seq<Admin>>,
    level: u32,
    a: Seq<StreetView>,
    b: Seq<StreetView>,
    m: int,
)
    requires
        grouped_streets(graph, table, level, a),
        grouped_streets(graph, table, level, b),
        0 <= m <= a.len(),
    ensures
        m <= b.len(),
        forall|j: int| 0 <= j < m ==> a[j] == b[j],
    decreases m,
{
    if m > 0 {
        lemma_grouped_prefix(graph, table, level, a, b, m - 1);
        let x = a[m - 1];
        assert(from_representative(graph, table, level, x));
        let i = choose|i: int| #[trigger] stands_for(graph, table, level, x, i);
        assert(b.contains(street_at(graph, table, i)));
        let k = choose|k: int| 0 <= k < b.len() && b[k] == x;
        if k < m - 1 {
            assert(a[k] == b[k]);
            lemma_key_lt_asymmetric(street_key(a[k], level), street_key(a[m - 1], level));
        }
        let y = b[m - 1];
        assert(from_representative(graph, table, level, y));
        let i2 = choose|i2: int| #[trigger] stands_for(graph, table, level, y, i2);
        assert(a.contains(street_at(graph, table, i2)));
        let k2 = choose|k2: int| 0 <= k2 < a.len() && a[k2] == y;
        if k2 < m - 1 {
            assert(a[k2] == b[k2]);
            lemma_key_lt_asymmetric(street_key(b[k2], level), street_key(b[m - 1], level));
        }
        if k > m - 1 {
            lemma_key_lt_asymmetric(street_key(b[m - 1], level), street_key(b[k], level));
            if k2 > m - 1 {
                lemma_key_lt_asymmetric(street_key(a[m - 1], level), street_key(a[k2], level));
            }
        }
    }
}

/// A graph, a lookup and a city level have one list of street documents, and
/// no other.
pub proof fn lemma_street_list_unique(
    graph: Seq<OsmObj>,
    table: Map<Coord, Seq<Admin>>,
    level: u32,
    a: Seq<StreetView>,
    b: Seq<StreetView>,
)
    requires
        is_street_list(graph, table, level, a),
        is_street_list(graph, table, level, b),
    ensures
        a == b,
{
    let first = relation_streets(graph, table, graph.len() as int).len() as int;
    let wa = a.skip(first);
    let wb = b.skip(first);
    lemma_grouped_prefix(graph, table, level, wa, wb, wa.len() as int);
    lemma_grouped_prefix(graph, table, level, wb, wa, wb.len() as int);
    assert(wa =~= wb);
    assert(a =~= a.take(first) + wa);
    assert(b =~= b.take(first) + wb);
}

/// Whether two lookups give the same regions for every way of the graph.
pub open spec fn agree_on_ways(
    graph: Seq<OsmObj>,
    first: Map<Coord, Seq<Admin>>,
    second: Map<Coord, Seq<Admin>>,
) -> bool {
    forall|i: int|
        0 <= i < graph.len() && (#[trigger] graph[i]) is Way ==> way_admins(
            graph,
            first,
            way_at(graph, i),
        ) == way_admins(graph, second, way_at(graph, i))
}

proof fn lemma_member_street_agrees(
    graph: Seq<OsmObj>,
    first: Map<Coord, Seq<Admin>>,
    second: Map<Coord, Seq<Admin>>,
    rel: Relation,
    member: Ref,
)
    requires
        agree_on_ways(graph, first, second),
    ensures
        member_street(graph, first, rel, member) == member_street(graph, second, rel, member),
{
    let id = member.member;
    if holds(graph, id) {
        let k = choose|k: int| 0 <= k < graph.len() && (#[trigger] graph[k]).osm_id() == id;
        if graph[k] is Way {
            assert(way_admins(graph, first, way_at(graph, k)) == way_admins(
                graph,
                second,
                way_at(graph, k),
            ));
        }
    }
}

proof fn lemma_relation_street_agrees(
    graph: Seq<OsmObj>,
    first: Map<Coord, Seq<Admin>>,
    second: Map<Coord, Seq<Admin>>,
    rel: Relation,
    from: int,
)
    requires
        agree_on_ways(graph, first, second),
        0 <= from,
    ensures
        relation_street_from(graph, first, rel, from) == relation_street_from(
            graph,
            second,
            rel,
            from,
        ),
    decreases rel.refs@.len() - from,
{
    if from < rel.refs@.len() {
        lemma_member_street_agrees(graph, first, second, rel, rel.refs@[from]);
        lemma_relation_street_agrees(graph, first, second, rel, from + 1);
    }
}

proof fn lemma_relation_streets_agree(
    graph: Seq<OsmObj>,
    first: Map<Coord, Seq<Admin>>,
    second: Map<Coord, Seq<Admin>>,
    upto: int,
)
    requires
        agree_on_ways(graph, first, second),
        upto <= graph.len(),
    ensures
        relation_streets(graph, first, upto) == relation_streets(graph, second, upto),
    decreases upto,
{
    if upto > 0 {
        lemma_relation_streets_agree(graph, first, second, upto - 1);
        match graph[upto - 1] {
            OsmObj::Relation(rel) => {
                lemma_relation_street_agrees(graph, first, second, rel, 0);
            },
            _ => {},
        }
    }
}

proof fn lemma_representative_agrees(
    graph: Seq<OsmObj>,
    first: Map<Coord, Seq<Admin>>,
    second: Map<Coord, Seq<Admin>>,
    level: u32,
    i: int,
)
    requires
        agree_on_ways(graph, first, second),
        is_representative(graph, first, level, i),
    ensures
        is_representative(graph, second, level, i),
        street_at(graph, first, i) == street_at(graph, second, i),
{
    assert(graph[i] is Way);
    assert forall|j: int| 0 <= j < i && #[trigger] eligible(graph, j) implies key_at(
        graph,
        second,
        level,
        j,
    ) != key_at(graph, second, level, i) by {
        assert(graph[j] is Way);
        assert(key_at(graph, first, level, j) != key_at(graph, first, level, i));
    }
}

/// The street documents of a graph depend on the lookup through the regions
/// of the ways of the graph only: two lookups that give the same regions for
/// every way give the same list.
pub proof fn lemma_lookup_at_ways_only(
    graph: Seq<OsmObj>,
    first: Map<Coord, Seq<Admin>>,
    second: Map<Coord, Seq<Admin>>,
    level: u32,
    out: Seq<StreetView>,
)
    requires
        agree_on_ways(graph, first, second),
        is_street_list(graph, first, level, out),
    ensures
        is_street_list(graph, second, level, out),
{
    lemma_relation_streets_agree(graph, first, second, graph.len() as int);
    let start = relation_streets(graph, first, graph.len() as int).len() as int;
    let ways = out.skip(start);
    assert forall|j: int| 0 <= j < ways.len() implies from_representative(
        graph,
        second,
        level,
        #[trigger] ways[j],
    ) by {
        assert(from_representative(graph, first, level, ways[j]));
        let i = choose|i: int| #[trigger] stands_for(graph, first, level, ways[j], i);
        lemma_representative_agrees(graph, first, second, level, i);
        assert(stands_for(graph, second, level, ways[j], i));
    }
    assert forall|i: int| #[trigger] is_representative(graph, second, level, i) implies ways.contains(
        street_at(graph, second, i),
    ) by {
        assert forall|k: int| 0 <= k < graph.len() && (#[trigger] graph[k]) is Way implies way_admins(
            graph,
            second,
            way_at(graph, k),
        ) == way_admins(graph, first, way_at(graph, k)) by {}
        lemma_representative_agrees(graph, second, first, level, i);
    }
}

proof fn lemma_relation_street_way(
    graph: Seq<OsmObj>,
    table: Map<Coord, Seq<Admin>>,
    rel: Relation,
    from: int,
) -> (way: i64)
    requires
        0 <= from,
        relation_street_from(graph, table, rel, from) is Some,
    ensures
        member_upto(rel, rel.refs@.len() as int, OsmId::Way(way)),
        relation_street_from(graph, table, rel, from)->0.id == decimal(way as int),
    decreases rel.refs@.len() - from,
{
    let member = rel.refs@[from];
    if member_street(graph, table, rel, member) is Some {
        let k = choose|k: int| 0 <= k < graph.len() && (#[trigger] graph[k]).osm_id() == member.member;
        way_at(graph, k).id
    } else {
        lemma_relation_street_way(graph, table, rel, from + 1)
    }
}

proof fn lemma_relation_streets_way(
    graph: Seq<OsmObj>,
    table: Map<Coord, Seq<Admin>>,
    upto: int,
    j: int,
) -> (way: i64)
    requires
        upto <= graph.len(),
        0 <= j < relation_streets(graph, table, upto).len(),
    ensures
        claimed_upto(graph, upto, OsmId::Way(way)),
        relation_streets(graph, table, upto)[j].id == decimal(way as int),
    decreases upto,
{
    let before = relation_streets(graph, table, upto - 1);
    if j < before.len() {
        let way = lemma_relation_streets_way(graph, table, upto - 1, j);
        let r = choose|r: int|
            0 <= r < upto - 1 && r < graph.len() && claims(#[trigger] graph[r], OsmId::Way(way));
        assert(claims(graph[r], OsmId::Way(way)));
        way
    } else {
        match graph[upto - 1] {
            OsmObj::Relation(rel) => {
                let way = lemma_relation_street_way(graph, table, rel, 0);
                assert(claims(graph[upto - 1], OsmId::Way(way)));
                way
            },
            _ => 0,
        }
    }
}

/// Every street document stands for a way of its own: no two documents of the
/// list, one of a relation and one of a way taken by itself, have the same
/// identifier.
pub proof fn lemma_relation_way_not_repeated(
    graph: Seq<OsmObj>,
    table: Map<Coord, Seq<Admin>>,
    level: u32,
    out: Seq<StreetView>,
    j: int,
    k: int,
)
    requires
        is_street_list(graph, table, level, out),
        0 <= j < relation_streets(graph, table, graph.len() as int).len() <= k < out.len(),
    ensures
        out[j].id != out[k].id,
{
    let first = relation_streets(graph, table, graph.len() as int).len() as int;
    assert(out.take(first)[j] == out[j]);
    let way = lemma_relation_streets_way(graph, table, graph.len() as int, j);
    let r = choose|r: int|
        0 <= r < graph.len() && r < graph.len() && claims(#[trigger] graph[r], OsmId::Way(way));
    lemma_members_not_standalone(graph, table, level, out, r, way, k);
}

/// Where no document of a relation has the name and the city regions of
/// another document, no two documents of the list have both the same name and
/// the same regions at the city level.
pub proof fn lemma_keys_differ(
    graph: Seq<OsmObj>,
    table: Map<Coord, Seq<Admin>>,
    level: u32,
    out: Seq<StreetView>,
    j: int,
    k: int,
)
    requires
        is_street_list(graph, table, level, out),
        forall|a: int, b: int|
            0 <= a < relation_streets(graph, table, graph.len() as int).len() && 0 <= b < out.len()
                && a != b ==> street_key(#[trigger] out[a], level) != street_key(
                #[trigger] out[b],
                level,
            ),
        0 <= j < out.len(),
        0 <= k < out.len(),
        j != k,
    ensures
        street_key(out[j], level) != street_key(out[k], level),
{
    let first = relation_streets(graph, table, graph.len() as int).len() as int;
    if j >= first && k >= first {
        lemma_grouped_keys_differ(graph, table, level, out, j, k);
    }
}

/// A street document of a way taken by itself is the document of one way of
/// the graph only: the way that stands for its street.
pub proof fn lemma_one_representative(
    graph: Seq<OsmObj>,
    table: Map<Coord, Seq<Admin>>,
    level: u32,
    street: StreetView,
    i: int,
    j: int,
)
    requires
        stands_for(graph, table, level, street, i),
        stands_for(graph, table, level, street, j),
    ensures
        i == j,
{
    assert(key_at(graph, table, level, i) == key_at(graph, table, level, j));
}

} // verus!
