//! The ways that are taken by themselves, by key, and the street document of
//! each group.
use crate::admin::{admins_at_level, Admin, AdminLookup, Coord};
use crate::osm::{lemma_find_at, tag_value, ObjMap, OsmId, OsmObj};
use crate::street::{all_decorated, callable, claimed, eligible, get_street_admin, grouped_streets};
use crate::street::{from_representative, is_representative, key_at, key_lt, stands_for, street_at};
use crate::street::{street_key};
use crate::street::{lemma_key_lt_asymmetric, lemma_key_lt_transitive, lemma_views_push};
use crate::street::{make_street};
use crate::street::{views, Street, StreetKey, StreetKeyView, StreetView};
use crate::text::Placement;
use std::collections::HashSet;
use vstd::prelude::*;

verus! {

/// The ways found under one key, in the order in which they were found.
struct Group {
    key: StreetKey,
    way_ids: Vec<OsmId>,
}

/// Whether the groups stand in the strict order of their keys.
spec fn keys_sorted(groups: Seq<Group>) -> bool {
    forall|a: int, b: int|
        0 <= a < b < groups.len() ==> key_lt((#[trigger] groups[a]).key@, (#[trigger] groups[b]).key@)
}

/// Whether one of the groups has the key `key`.
spec fn has_key(groups: Seq<Group>, key: StreetKeyView) -> bool {
    exists|g: int| 0 <= g < groups.len() && (#[trigger] groups[g]).key@ == key
}

/// Whether `group` is the group of the way at position `rep`, one of the
/// first `n` objects: that way stands for its street, has the key of the
/// group and is its first way.
spec fn group_ok(
    graph: Seq<OsmObj>,
    table: Map<Coord, Seq<Admin>>,
    level: u32,
    n: int,
    group: Group,
    rep: int,
) -> bool {
    &&& rep < n
    &&& is_representative(graph, table, level, rep)
    &&& group.key@ == key_at(graph, table, level, rep)
    &&& group.way_ids@.len() > 0
    &&& group.way_ids@[0] == graph[rep].osm_id()
}

/// Whether `groups` holds the ways among the first `n` objects that are taken
/// by themselves, by key and in the order of the keys, with the first way of
/// group `g` at position `reps[g]`.
spec fn grouping(
    graph: Seq<OsmObj>,
    table: Map<Coord, Seq<Admin>>,
    level: u32,
    n: int,
    groups: Seq<Group>,
    reps: Seq<int>,
) -> bool {
    &&& reps.len() == groups.len()
    &&& keys_sorted(groups)
    &&& forall|g: int|
        0 <= g < groups.len() ==> group_ok(graph, table, level, n, #[trigger] groups[g], reps[g])
    &&& forall|i: int|
        0 <= i < n && #[trigger] eligible(graph, i) ==> has_key(
            groups,
            key_at(graph, table, level, i),
        )
}

/// The first position whose group does not come before `key`.
fn find_group(groups: &Vec<Group>, key: &StreetKey) -> (pos: usize)
    requires
        keys_sorted(groups@),
    ensures
        pos <= groups@.len(),
        forall|g: int| 0 <= g < pos ==> key_lt((#[trigger] groups@[g]).key@, key@),
        forall|g: int| pos <= g < groups@.len() ==> !key_lt((#[trigger] groups@[g]).key@, key@),
{
    let mut lo: usize = 0;
    let mut hi: usize = groups.len();
    while lo < hi
        invariant
            keys_sorted(groups@),
            lo <= hi <= groups@.len(),
            forall|g: int| 0 <= g < lo ==> key_lt((#[trigger] groups@[g]).key@, key@),
            forall|g: int| hi <= g < groups@.len() ==> !key_lt((#[trigger] groups@[g]).key@, key@),
        decreases hi - lo,
    {
        let mid: usize = lo + (hi - lo) / 2;
        let placed: Placement = groups[mid].key.compare(key);
        if placed == Placement::Before {
            assert forall|g: int| 0 <= g < mid + 1 implies key_lt(
                (#[trigger] groups@[g]).key@,
                key@,
            ) by {
                if g < mid {
                    lemma_key_lt_transitive(groups@[g].key@, groups@[mid as int].key@, key@);
                }
            }
            lo = mid + 1;
        } else {
            assert forall|g: int| mid <= g < groups@.len() implies !key_lt(
                (#[trigger] groups@[g]).key@,
                key@,
            ) by {
                if mid < g && key_lt(groups@[g].key@, key@) {
                    lemma_key_lt_transitive(groups@[mid as int].key@, groups@[g].key@, key@);
                }
            }
            hi = mid;
        }
    }
    lo
}

/// Adds the way `id` to the group of `key`, which is made where there is
/// none. Returns the position of the group and whether it was made.
fn add_to_groups(groups: &mut Vec<Group>, key: StreetKey, id: OsmId) -> (r: (usize, bool))
    requires
        keys_sorted(old(groups)@),
    ensures
        keys_sorted(final(groups)@),
        r.0 <= old(groups)@.len(),
        r.0 < final(groups)@.len(),
        final(groups)@[r.0 as int].key@ == key@,
        r.1 ==> {
            &&& !has_key(old(groups)@, key@)
            &&& final(groups)@ == old(groups)@.insert(r.0 as int, final(groups)@[r.0 as int])
            &&& final(groups)@[r.0 as int].way_ids@ == seq![id]
        },
        !r.1 ==> {
            &&& r.0 < old(groups)@.len()
            &&& final(groups)@.len() == old(groups)@.len()
            &&& final(groups)@[r.0 as int].key == old(groups)@[r.0 as int].key
            &&& final(groups)@[r.0 as int].way_ids@ == old(groups)@[r.0 as int].way_ids@.push(id)
            &&& forall|g: int|
                0 <= g < old(groups)@.len() && g != r.0 ==> final(groups)@[g] == old(groups)@[g]
        },
{
    let pos: usize = find_group(groups, &key);
    let ghost before = groups@;
    let mut found: bool = false;
    if pos < groups.len() {
        let placed: Placement = groups[pos].key.compare(&key);
        found = placed == Placement::Same;
    }
    if found {
        groups[pos].way_ids.push(id);
        proof {
            let after = groups@;
            assert forall|a: int, b: int| 0 <= a < b < after.len() implies key_lt(
                (#[trigger] after[a]).key@,
                (#[trigger] after[b]).key@,
            ) by {
                assert(key_lt(before[a].key@, before[b].key@));
            }
        }
        (pos, false)
    } else {
        let mut way_ids: Vec<OsmId> = Vec::new();
        way_ids.push(id);
        groups.insert(pos, Group { key, way_ids });
        proof {
            let after = groups@;
            let k = after[pos as int].key@;
            assert(after[pos as int].way_ids@ =~= seq![id]);
            assert forall|g: int| pos <= g < before.len() implies key_lt(
                k,
                (#[trigger] before[g]).key@,
            ) by {
                assert(!key_lt(before[pos as int].key@, k));
                assert(key_lt(k, before[pos as int].key@));
                if pos < g {
                    assert(key_lt(before[pos as int].key@, before[g].key@));
                    lemma_key_lt_transitive(k, before[pos as int].key@, before[g].key@);
                }
            }
            assert forall|a: int, b: int| 0 <= a < b < after.len() implies key_lt(
                (#[trigger] after[a]).key@,
                (#[trigger] after[b]).key@,
            ) by {
                if b < pos {
                    assert(key_lt(before[a].key@, before[b].key@));
                } else if b == pos {
                    assert(key_lt(before[a].key@, k));
                } else if a < pos {
                    assert(after[b] == before[b - 1]);
                    if a < b - 1 {
                        assert(key_lt(before[a].key@, before[b - 1].key@));
                    }
                } else if a == pos {
                    assert(after[b] == before[b - 1]);
                    assert(key_lt(k, before[b - 1].key@));
                } else {
                    assert(after[a] == before[a - 1]);
                    assert(after[b] == before[b - 1]);
                    assert(key_lt(before[a - 1].key@, before[b - 1].key@));
                }
            }
            if has_key(before, k) {
                let g = choose|g: int| 0 <= g < before.len() && (#[trigger] before[g]).key@ == k;
                if g < pos {
                    lemma_key_lt_asymmetric(before[g].key@, k);
                } else {
                    lemma_key_lt_asymmetric(k, before[g].key@);
                }
            }
        }
        (pos, true)
    }
}

proof fn lemma_new_group(
    graph: Seq<OsmObj>,
    table: Map<Coord, Seq<Admin>>,
    level: u32,
    n: int,
    before: Seq<Group>,
    reps: Seq<int>,
    after: Seq<Group>,
    pos: int,
)
    requires
        grouping(graph, table, level, n, before, reps),
        eligible(graph, n),
        0 <= pos <= before.len(),
        after == before.insert(pos, after[pos]),
        after[pos].key@ == key_at(graph, table, level, n),
        after[pos].way_ids@.len() > 0,
        after[pos].way_ids@[0] == graph[n].osm_id(),
        !has_key(before, key_at(graph, table, level, n)),
        keys_sorted(after),
    ensures
        grouping(graph, table, level, n + 1, after, reps.insert(pos, n)),
{
    let reps2 = reps.insert(pos, n);
    assert forall|j: int| 0 <= j < n && #[trigger] eligible(graph, j) implies key_at(
        graph,
        table,
        level,
        j,
    ) != key_at(graph, table, level, n) by {
        assert(has_key(before, key_at(graph, table, level, j)));
    }
    assert(is_representative(graph, table, level, n));
    assert forall|g: int| 0 <= g < after.len() implies group_ok(
        graph,
        table,
        level,
        n + 1,
        #[trigger] after[g],
        reps2[g],
    ) by {
        if g < pos {
            assert(after[g] == before[g]);
            assert(group_ok(graph, table, level, n, before[g], reps[g]));
        } else if g > pos {
            assert(after[g] == before[g - 1]);
            assert(group_ok(graph, table, level, n, before[g - 1], reps[g - 1]));
        }
    }
    assert forall|i: int| 0 <= i < n + 1 && #[trigger] eligible(graph, i) implies has_key(
        after,
        key_at(graph, table, level, i),
    ) by {
        if i < n {
            let key = key_at(graph, table, level, i);
            assert(has_key(before, key));
            let g = choose|g: int| 0 <= g < before.len() && (#[trigger] before[g]).key@ == key;
            if g < pos {
                assert(after[g] == before[g]);
            } else {
                assert(after[g + 1] == before[g]);
            }
        } else {
            assert(after[pos].key@ == key_at(graph, table, level, i));
        }
    }
}

proof fn lemma_same_group(
    graph: Seq<OsmObj>,
    table: Map<Coord, Seq<Admin>>,
    level: u32,
    n: int,
    before: Seq<Group>,
    reps: Seq<int>,
    after: Seq<Group>,
    pos: int,
    id: OsmId,
)
    requires
        grouping(graph, table, level, n, before, reps),
        eligible(graph, n),
        0 <= pos < before.len(),
        after.len() == before.len(),
        after[pos].key@ == key_at(graph, table, level, n),
        after[pos].key == before[pos].key,
        after[pos].way_ids@ == before[pos].way_ids@.push(id),
        forall|g: int| 0 <= g < before.len() && g != pos ==> after[g] == before[g],
        keys_sorted(after),
    ensures
        grouping(graph, table, level, n + 1, after, reps),
{
    assert forall|g: int| 0 <= g < after.len() implies group_ok(
        graph,
        table,
        level,
        n + 1,
        #[trigger] after[g],
        reps[g],
    ) by {
        assert(group_ok(graph, table, level, n, before[g], reps[g]));
        if g != pos {
            assert(after[g] == before[g]);
        }
    }
    assert forall|i: int| 0 <= i < n + 1 && #[trigger] eligible(graph, i) implies has_key(
        after,
        key_at(graph, table, level, i),
    ) by {
        if i < n {
            let key = key_at(graph, table, level, i);
            assert(has_key(before, key));
            let g = choose|g: int| 0 <= g < before.len() && (#[trigger] before[g]).key@ == key;
            assert(after[g].key@ == key);
        } else {
            assert(after[pos].key@ == key_at(graph, table, level, i));
        }
    }
}

proof fn lemma_no_group(
    graph: Seq<OsmObj>,
    table: Map<Coord, Seq<Admin>>,
    level: u32,
    n: int,
    groups: Seq<Group>,
    reps: Seq<int>,
)
    requires
        grouping(graph, table, level, n, groups, reps),
        !eligible(graph, n),
    ensures
        grouping(graph, table, level, n + 1, groups, reps),
{
    assert forall|g: int| 0 <= g < groups.len() implies group_ok(
        graph,
        table,
        level,
        n + 1,
        #[trigger] groups[g],
        reps[g],
    ) by {
        assert(group_ok(graph, table, level, n, groups[g], reps[g]));
    }
}

/// The ways of the graph that are taken by themselves, by key.
fn group_ways(
    admins_geofinder: &AdminLookup,
    obj_map: &ObjMap,
    city_level: u32,
    street_rel: &HashSet<i64>,
) -> (r: (Vec<Group>, Ghost<Seq<int>>))
    requires
        obj_map.wf(),
        forall|way: i64| #[trigger] street_rel@.contains(way) <==> claimed(obj_map@, OsmId::Way(way)),
    ensures
        grouping(
            obj_map@,
            admins_geofinder@,
            city_level,
            obj_map@.len() as int,
            r.0@,
            r.1@,
        ),
{
    broadcast use vstd::std_specs::hash::group_hash_axioms;

    let mut name_admin_map: Vec<Group> = Vec::new();
    let ghost mut reps: Seq<int> = Seq::empty();
    let n: usize = obj_map.len();
    let mut i: usize = 0;
    while i < n
        invariant
            obj_map.wf(),
            n == obj_map@.len(),
            i <= n,
            forall|way: i64| #[trigger]
                street_rel@.contains(way) <==> claimed(obj_map@, OsmId::Way(way)),
            grouping(obj_map@, admins_geofinder@, city_level, i as int, name_admin_map@, reps),
        decreases n - i,
    {
        let obj: &OsmObj = obj_map.nth(i);
        let ghost before = name_admin_map@;
        let ghost mut taken: bool = false;
        match obj {
            OsmObj::Way(way) => {
                let osmid: OsmId = OsmId::Way(way.id);
                if !street_rel.contains(&way.id) {
                    match tag_value(&way.tags, "name") {
                        Some(way_name) => {
                            if !way_name.as_str().is_empty() {
                                let admins: Vec<Admin> = get_street_admin(
                                    admins_geofinder,
                                    obj_map,
                                    way,
                                );
                                let key: StreetKey = StreetKey {
                                    name: way_name,
                                    admins: admins_at_level(&admins, city_level),
                                };
                                assert(key@ == key_at(
                                    obj_map@,
                                    admins_geofinder@,
                                    city_level,
                                    i as int,
                                ));
                                assert(eligible(obj_map@, i as int));
                                let placed: (usize, bool) = add_to_groups(
                                    &mut name_admin_map,
                                    key,
                                    osmid,
                                );
                                proof {
                                    if placed.1 {
                                        lemma_new_group(
                                            obj_map@,
                                            admins_geofinder@,
                                            city_level,
                                            i as int,
                                            before,
                                            reps,
                                            name_admin_map@,
                                            placed.0 as int,
                                        );
                                        reps = reps.insert(placed.0 as int, i as int);
                                    } else {
                                        lemma_same_group(
                                            obj_map@,
                                            admins_geofinder@,
                                            city_level,
                                            i as int,
                                            before,
                                            reps,
                                            name_admin_map@,
                                            placed.0 as int,
                                            osmid,
                                        );
                                    }
                                }
                                proof {
                                    taken = true;
                                }
                            }
                        },
                        None => {},
                    }
                }
            },
            _ => {},
        }
        proof {
            if !taken {
                assert(!eligible(obj_map@, i as int));
                lemma_no_group(
                    obj_map@,
                    admins_geofinder@,
                    city_level,
                    i as int,
                    name_admin_map@,
                    reps,
                );
            }
        }
        i = i + 1;
    }
    (name_admin_map, Ghost(reps))
}

/// The street documents of the groups, each made from the first way of its
/// group.
fn group_streets<L, Z>(
    admins_geofinder: &AdminLookup,
    obj_map: &ObjMap,
    city_level: u32,
    name_admin_map: &Vec<Group>,
    reps: Ghost<Seq<int>>,
    street_list: &mut Vec<Street>,
    format_label: &L,
    zip_codes: &Z,
)
    where
        L: Fn(&Vec<Admin>, u32, &String) -> String,
        Z: Fn(&Vec<Admin>) -> Vec<String>,
    requires
        obj_map.wf(),
        callable(*format_label, *zip_codes),
        all_decorated(old(street_list)@, city_level, *format_label, *zip_codes),
        grouping(
            obj_map@,
            admins_geofinder@,
            city_level,
            obj_map@.len() as int,
            name_admin_map@,
            reps@,
        ),
    ensures
        all_decorated(final(street_list)@, city_level, *format_label, *zip_codes),
        views(final(street_list)@) == views(old(street_list)@) + Seq::new(
            name_admin_map@.len(),
            |g: int| street_at(obj_map@, admins_geofinder@, reps@[g]),
        ),
{
    let mut g: usize = 0;
    assert(views(street_list@) =~= views(old(street_list)@) + Seq::new(
        0,
        |g: int| street_at(obj_map@, admins_geofinder@, reps@[g]),
    ));
    while g < name_admin_map.len()
        invariant
            obj_map.wf(),
            callable(*format_label, *zip_codes),
            all_decorated(street_list@, city_level, *format_label, *zip_codes),
            g <= name_admin_map@.len(),
            grouping(
                obj_map@,
                admins_geofinder@,
                city_level,
                obj_map@.len() as int,
                name_admin_map@,
                reps@,
            ),
            views(street_list@) == views(old(street_list)@) + Seq::new(
                g as nat,
                |k: int| street_at(obj_map@, admins_geofinder@, reps@[k]),
            ),
        decreases name_admin_map@.len() - g,
    {
        let ghost rep = reps@[g as int];
        proof {
            assert(group_ok(
                obj_map@,
                admins_geofinder@,
                city_level,
                obj_map@.len() as int,
                name_admin_map@[g as int],
                rep,
            ));
            assert(eligible(obj_map@, rep));
            lemma_find_at(obj_map@, rep);
        }
        let ghost list_before = street_list@;
        let osmid: OsmId = name_admin_map[g].way_ids[0];
        match obj_map.get(&osmid) {
            Some(obj) => match obj {
                OsmObj::Way(way) => match tag_value(&way.tags, "name") {
                    Some(way_name) => {
                        let street: Street = make_street(
                            admins_geofinder,
                            obj_map,
                            way,
                            way_name,
                            city_level,
                            format_label,
                            zip_codes,
                        );
                        proof {
                            lemma_views_push(street_list@, street);
                        }
                        street_list.push(street);
                    },
                    None => {},
                },
                _ => {},
            },
            None => {},
        }
        assert(views(street_list@) =~= views(old(street_list)@) + Seq::new(
            (g + 1) as nat,
            |k: int| street_at(obj_map@, admins_geofinder@, reps@[k]),
        ));
        g = g + 1;
    }
}

proof fn lemma_grouped(
    graph: Seq<OsmObj>,
    table: Map<Coord, Seq<Admin>>,
    level: u32,
    groups: Seq<Group>,
    reps: Seq<int>,
    ways: Seq<StreetView>,
)
    requires
        grouping(graph, table, level, graph.len() as int, groups, reps),
        ways == Seq::new(groups.len(), |g: int| street_at(graph, table, reps[g])),
    ensures
        grouped_streets(graph, table, level, ways),
{
    assert forall|j: int| 0 <= j < ways.len() implies from_representative(
        graph,
        table,
        level,
        #[trigger] ways[j],
    ) by {
        assert(group_ok(graph, table, level, graph.len() as int, groups[j], reps[j]));
        assert(stands_for(graph, table, level, ways[j], reps[j]));
    }
    assert forall|i: int| #[trigger] is_representative(graph, table, level, i) implies ways.contains(
        street_at(graph, table, i),
    ) by {
        let key = key_at(graph, table, level, i);
        assert(eligible(graph, i));
        assert(has_key(groups, key));
        let g = choose|g: int| 0 <= g < groups.len() && (#[trigger] groups[g]).key@ == key;
        assert(group_ok(graph, table, level, graph.len() as int, groups[g], reps[g]));
        let r = reps[g];
        assert(eligible(graph, r));
        assert(r == i);
        assert(ways[g] == street_at(graph, table, i));
    }
    assert forall|j: int, k: int| 0 <= j < k < ways.len() implies key_lt(
        street_key(#[trigger] ways[j], level),
        street_key(#[trigger] ways[k], level),
    ) by {
        assert(group_ok(graph, table, level, graph.len() as int, groups[j], reps[j]));
        assert(group_ok(graph, table, level, graph.len() as int, groups[k], reps[k]));
        assert(key_lt(groups[j].key@, groups[k].key@));
    }
}

/// Adds to `street_list` the street documents of the ways that are taken by
/// themselves.
pub(crate) fn grouped_phase<L, Z>(
    admins_geofinder: &AdminLookup,
    obj_map: &ObjMap,
    city_level: u32,
    street_rel: &HashSet<i64>,
    street_list: &mut Vec<Street>,
    format_label: &L,
    zip_codes: &Z,
)
    where
        L: Fn(&Vec<Admin>, u32, &String) -> String,
        Z: Fn(&Vec<Admin>) -> Vec<String>,
    requires
        obj_map.wf(),
        forall|way: i64| #[trigger] street_rel@.contains(way) <==> claimed(obj_map@, OsmId::Way(way)),
        callable(*format_label, *zip_codes),
        all_decorated(old(street_list)@, city_level, *format_label, *zip_codes),
    ensures
        old(street_list)@.len() <= final(street_list)@.len(),
        views(final(street_list)@).take(old(street_list)@.len() as int) == views(old(street_list)@),
        grouped_streets(
            obj_map@,
            admins_geofinder@,
            city_level,
            views(final(street_list)@).skip(old(street_list)@.len() as int),
        ),
        all_decorated(final(street_list)@, city_level, *format_label, *zip_codes),
{
    let (name_admin_map, reps) = group_ways(admins_geofinder, obj_map, city_level, street_rel);
    group_streets(
        admins_geofinder,
        obj_map,
        city_level,
        &name_admin_map,
        reps,
        street_list,
        format_label,
        zip_codes,
    );
    proof {
        let ways = Seq::new(
            name_admin_map@.len(),
            |g: int| street_at(obj_map@, admins_geofinder@, reps@[g]),
        );
        let before = views(old(street_list)@);
        lemma_grouped(obj_map@, admins_geofinder@, city_level, name_admin_map@, reps@, ways);
        assert(views(street_list@).take(before.len() as int) =~= before);
        assert(views(street_list@).skip(before.len() as int) =~= ways);
    }
}

} // verus!
