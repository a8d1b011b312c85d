//! The street documents that relations give, and the ways that they claim.
use crate::admin::{Admin, AdminLookup};
use crate::osm::{tag_map, tag_value, ObjMap, OsmId, OsmObj, Ref, Relation};
use crate::street::{all_decorated, callable, claimed, claimed_upto, claims, decorated};
use crate::street::{member_street, member_upto};
use crate::street::{is_street_relation, lemma_views_push, make_street, relation_street_from};
use crate::street::{relation_streets};
use crate::street::{views, Street};
use std::collections::HashSet;
use vstd::prelude::*;

verus! {

/// The street document that `member` of `rel` gives, if it gives one.
/// `rel_name` is the name of the relation.
fn member_street_of<L, Z>(
    admins_geofinder: &AdminLookup,
    obj_map: &ObjMap,
    rel: &Relation,
    rel_name: &Option<String>,
    member: &Ref,
    city_level: u32,
    format_label: &L,
    zip_codes: &Z,
) -> (made: Option<Street>)
    where
        L: Fn(&Vec<Admin>, u32, &String) -> String,
        Z: Fn(&Vec<Admin>) -> Vec<String>,
    requires
        obj_map.wf(),
        callable(*format_label, *zip_codes),
        *rel_name is Some <==> tag_map(rel.tags).contains_key("name"@),
        *rel_name is Some ==> rel_name->0@ == tag_map(rel.tags)["name"@],
    ensures
        match made {
            Some(street) => member_street(obj_map@, admins_geofinder@, *rel, *member) == Some(
                street@,
            ) && decorated(street, city_level, *format_label, *zip_codes),
            None => member_street(obj_map@, admins_geofinder@, *rel, *member) is None,
        },
{
    if !member.member.is_way() {
        return None;
    }
    let street_role: String = String::from_str("street");
    if !(member.role == street_role) {
        return None;
    }
    match obj_map.get(&member.member) {
        Some(obj) => match obj {
            OsmObj::Way(way) => {
                let name: Option<String> = match rel_name {
                    Some(n) => Some(n.clone()),
                    None => tag_value(&way.tags, "name"),
                };
                match name {
                    Some(name) => {
                        if name.as_str().is_empty() {
                            None
                        } else {
                            Some(
                                make_street(
                                    admins_geofinder,
                                    obj_map,
                                    way,
                                    name,
                                    city_level,
                                    format_label,
                                    zip_codes,
                                ),
                            )
                        }
                    },
                    None => None,
                }
            },
            _ => None,
        },
        None => None,
    }
}

/// The street document of the first member of `rel` that gives one.
fn first_member_street<L, Z>(
    admins_geofinder: &AdminLookup,
    obj_map: &ObjMap,
    rel: &Relation,
    city_level: u32,
    format_label: &L,
    zip_codes: &Z,
) -> (made: Option<Street>)
    where
        L: Fn(&Vec<Admin>, u32, &String) -> String,
        Z: Fn(&Vec<Admin>) -> Vec<String>,
    requires
        obj_map.wf(),
        callable(*format_label, *zip_codes),
    ensures
        match made {
            Some(street) => relation_street_from(obj_map@, admins_geofinder@, *rel, 0) == Some(
                street@,
            ) && decorated(street, city_level, *format_label, *zip_codes),
            None => relation_street_from(obj_map@, admins_geofinder@, *rel, 0) is None,
        },
{
    let rel_name: Option<String> = tag_value(&rel.tags, "name");
    let mut k: usize = 0;
    while k < rel.refs.len()
        invariant
            obj_map.wf(),
            callable(*format_label, *zip_codes),
            k <= rel.refs@.len(),
            rel_name is Some <==> tag_map(rel.tags).contains_key("name"@),
            rel_name is Some ==> rel_name->0@ == tag_map(rel.tags)["name"@],
            relation_street_from(obj_map@, admins_geofinder@, *rel, 0) == relation_street_from(
                obj_map@,
                admins_geofinder@,
                *rel,
                k as int,
            ),
        decreases rel.refs@.len() - k,
    {
        let made: Option<Street> = member_street_of(
            admins_geofinder,
            obj_map,
            rel,
            &rel_name,
            &rel.refs[k],
            city_level,
            format_label,
            zip_codes,
        );
        if made.is_some() {
            return made;
        }
        k = k + 1;
    }
    None
}

/// Adds the member ways of `rel` to the claimed ways.
fn claim_members(rel: &Relation, claimed_ways: &mut HashSet<i64>)
    ensures
        forall|way: i64| #[trigger]
            final(claimed_ways)@.contains(way) <==> (old(claimed_ways)@.contains(way)
                || member_upto(*rel, rel.refs@.len() as int, OsmId::Way(way))),
{
    broadcast use vstd::std_specs::hash::group_hash_axioms;

    let mut k: usize = 0;
    while k < rel.refs.len()
        invariant
            k <= rel.refs@.len(),
            forall|way: i64| #[trigger]
                claimed_ways@.contains(way) <==> (old(claimed_ways)@.contains(way) || member_upto(
                    *rel,
                    k as int,
                    OsmId::Way(way),
                )),
        decreases rel.refs@.len() - k,
    {
        let member: OsmId = rel.refs[k].member;
        let ghost before = claimed_ways@;
        match member {
            OsmId::Way(way) => {
                claimed_ways.insert(way);
            },
            _ => {},
        }
        proof {
            assert forall|way: i64| #[trigger]
                claimed_ways@.contains(way) <==> (old(claimed_ways)@.contains(way) || member_upto(
                    *rel,
                    k + 1,
                    OsmId::Way(way),
                )) by {
                let id = OsmId::Way(way);
                if member_upto(*rel, k + 1, id) && !member_upto(*rel, k as int, id) {
                    let m = choose|m: int|
                        0 <= m < k + 1 && m < rel.refs@.len() && (#[trigger] rel.refs@[m]).member
                            == id;
                    assert(m == k);
                }
                if id == member {
                    assert(rel.refs@[k as int].member == id);
                }
                if member_upto(*rel, k as int, id) {
                    let m = choose|m: int|
                        0 <= m < k && m < rel.refs@.len() && (#[trigger] rel.refs@[m]).member == id;
                    assert(rel.refs@[m].member == id);
                }
                assert(before.contains(way) <==> (old(claimed_ways)@.contains(way) || member_upto(
                    *rel,
                    k as int,
                    id,
                )));
            }
        }
        k = k + 1;
    }
}

proof fn lemma_claimed_step(graph: Seq<OsmObj>, i: int, id: OsmId)
    requires
        0 <= i < graph.len(),
    ensures
        claimed_upto(graph, i + 1, id) <==> (claimed_upto(graph, i, id) || claims(graph[i], id)),
{
    if claimed_upto(graph, i + 1, id) {
        let m = choose|m: int| 0 <= m < i + 1 && m < graph.len() && claims(#[trigger] graph[m], id);
        if m < i {
            assert(claimed_upto(graph, i, id));
        }
    }
    if claimed_upto(graph, i, id) {
        let m = choose|m: int| 0 <= m < i && m < graph.len() && claims(#[trigger] graph[m], id);
        assert(claims(graph[m], id));
    }
    if claims(graph[i], id) {
        assert(claimed_upto(graph, i + 1, id));
    }
}

/// The street documents that the relations of the graph give, and the ways
/// that they claim.
pub(crate) fn relation_phase<L, Z>(
    admins_geofinder: &AdminLookup,
    obj_map: &ObjMap,
    city_level: u32,
    format_label: &L,
    zip_codes: &Z,
) -> (r: (Vec<Street>, HashSet<i64>))
    where
        L: Fn(&Vec<Admin>, u32, &String) -> String,
        Z: Fn(&Vec<Admin>) -> Vec<String>,
    requires
        obj_map.wf(),
        callable(*format_label, *zip_codes),
    ensures
        all_decorated(r.0@, city_level, *format_label, *zip_codes),
        views(r.0@) == relation_streets(obj_map@, admins_geofinder@, obj_map@.len() as int),
        forall|way: i64| #[trigger] r.1@.contains(way) <==> claimed(obj_map@, OsmId::Way(way)),
{
    let mut street_list: Vec<Street> = Vec::new();
    let mut street_rel: HashSet<i64> = HashSet::new();
    let n: usize = obj_map.len();
    let mut i: usize = 0;
    assert(views(street_list@) =~= relation_streets(obj_map@, admins_geofinder@, 0));
    while i < n
        invariant
            obj_map.wf(),
            callable(*format_label, *zip_codes),
            all_decorated(street_list@, city_level, *format_label, *zip_codes),
            n == obj_map@.len(),
            i <= n,
            views(street_list@) == relation_streets(obj_map@, admins_geofinder@, i as int),
            forall|way: i64| #[trigger]
                street_rel@.contains(way) <==> claimed_upto(obj_map@, i as int, OsmId::Way(way)),
        decreases n - i,
    {
        let obj: &OsmObj = obj_map.nth(i);
        let ghost claimed_before = street_rel@;
        match obj {
            OsmObj::Relation(rel) => {
                if is_street_relation(rel) {
                    match first_member_street(
                        admins_geofinder,
                        obj_map,
                        rel,
                        city_level,
                        format_label,
                        zip_codes,
                    ) {
                        Some(street) => {
                            proof {
                                lemma_views_push(street_list@, street);
                            }
                            street_list.push(street);
                        },
                        None => {},
                    }
                    claim_members(rel, &mut street_rel);
                }
            },
            _ => {},
        }
        proof {
            assert forall|way: i64| #[trigger]
                street_rel@.contains(way) <==> claimed_upto(obj_map@, i + 1, OsmId::Way(way)) by {
                lemma_claimed_step(obj_map@, i as int, OsmId::Way(way));
                assert(claimed_before.contains(way) <==> claimed_upto(
                    obj_map@,
                    i as int,
                    OsmId::Way(way),
                ));
            }
        }
        i = i + 1;
    }
    (street_list, street_rel)
}

} // verus!
