use mimirsbrunn::admin::{Admin, AdminLookup, Coord};
use mimirsbrunn::osm::{Node, ObjMap, OsmId, OsmObj, Ref, Relation, Way};
use mimirsbrunn::street::{
    compute_street_weight, get_street_admin, get_way_coord, is_valid_obj, streets, Street,
};
use osmpbfreader::Tags;

const CITY_LEVEL: u32 = 8;

fn tags(pairs: &[(&str, &str)]) -> Tags {
    let mut tags = Tags::new();
    for (key, value) in pairs {
        tags.insert((*key).into(), (*value).into());
    }
    tags
}

fn node(id: i64, lat: i32, lon: i32) -> OsmObj {
    OsmObj::Node(Node { id, tags: Tags::new(), decimicro_lat: lat, decimicro_lon: lon })
}

fn way(id: i64, pairs: &[(&str, &str)], nodes: &[i64]) -> OsmObj {
    OsmObj::Way(Way { id, tags: tags(pairs), nodes: nodes.to_vec() })
}

fn street_way(id: i64, name: &str, nodes: &[i64]) -> OsmObj {
    way(id, &[("highway", "residential"), ("name", name)], nodes)
}

fn member(id: OsmId, role: &str) -> Ref {
    Ref { member: id, role: role.to_string() }
}

fn relation(id: i64, pairs: &[(&str, &str)], refs: Vec<Ref>) -> OsmObj {
    OsmObj::Relation(Relation { id, tags: tags(pairs), refs })
}

fn graph(objs: Vec<OsmObj>) -> ObjMap {
    let mut map = ObjMap::new();
    for obj in objs {
        map.insert(obj);
    }
    map
}

fn coord(lat: i32, lon: i32) -> Coord {
    Coord { decimicro_lat: lat, decimicro_lon: lon }
}

fn paris() -> Admin {
    Admin { id: 75056, level: 8, weight: 42 }
}

fn lyon() -> Admin {
    Admin { id: 69123, level: 8, weight: 17 }
}

fn france() -> Admin {
    Admin { id: 1, level: 2, weight: 99 }
}

fn lookup(cells: Vec<(Coord, Vec<Admin>)>) -> AdminLookup {
    let mut lookup = AdminLookup::new();
    for (coord, admins) in cells {
        lookup.insert(coord, admins);
    }
    lookup
}

fn label(admins: &Vec<Admin>, level: u32, name: &String) -> String {
    match admins.iter().find(|admin| admin.level == level) {
        Some(city) => format!("{} ({})", name, city.id),
        None => name.clone(),
    }
}

fn zips(admins: &Vec<Admin>) -> Vec<String> {
    admins.iter().map(|admin| format!("{:05}", admin.id)).collect()
}

fn ids(list: &[Street]) -> Vec<String> {
    list.iter().map(|street| street.id.clone()).collect()
}

#[test]
fn two_ways_with_one_name_in_one_city_give_one_street() {
    let map = graph(vec![
        node(1, 488_000_000, 23_000_000),
        node(2, 488_100_000, 23_100_000),
        street_way(10, "Rue de la Paix", &[1]),
        street_way(11, "Rue de la Paix", &[2]),
    ]);
    let finder = lookup(vec![
        (coord(488_000_000, 23_000_000), vec![france(), paris()]),
        (coord(488_100_000, 23_100_000), vec![paris(), france()]),
    ]);
    let list = streets(&map, &finder, CITY_LEVEL, label, zips);
    assert_eq!(list.len(), 1);
    assert_eq!(
        list[0],
        Street {
            id: "10".to_string(),
            name: "Rue de la Paix".to_string(),
            label: "Rue de la Paix (75056)".to_string(),
            weight: 1,
            zip_codes: vec!["00001".to_string(), "75056".to_string()],
            administrative_regions: vec![france(), paris()],
            coord: Some(coord(488_000_000, 23_000_000)),
        }
    );
}

#[test]
fn relation_gives_the_street_of_its_first_qualifying_member() {
    let map = graph(vec![
        node(1, 10, 20),
        node(2, 30, 40),
        node(3, 50, 60),
        way(20, &[("highway", "primary")], &[1]),
        street_way(21, "Avenue Foch", &[2]),
        street_way(22, "Avenue Foch", &[3]),
        relation(
            100,
            &[("type", "associatedStreet"), ("name", "Avenue Foch")],
            vec![
                member(OsmId::Way(20), "house"),
                member(OsmId::Way(21), "street"),
                member(OsmId::Way(22), "street"),
            ],
        ),
    ]);
    let finder = lookup(vec![(coord(30, 40), vec![paris()])]);
    let list = streets(&map, &finder, CITY_LEVEL, label, zips);
    assert_eq!(ids(&list), vec!["21".to_string()]);
    assert_eq!(list[0].name, "Avenue Foch");
    assert_eq!(list[0].administrative_regions, vec![paris()]);
    assert_eq!(list[0].coord, Some(coord(30, 40)));
    assert_eq!(list[0].weight, 1);
    assert_eq!(list[0].label, "Avenue Foch (75056)");
    assert_eq!(list[0].zip_codes, vec!["75056".to_string()]);
}

#[test]
fn relation_without_a_name_takes_the_name_of_the_way() {
    let map = graph(vec![
        way(30, &[("highway", "service")], &[]),
        street_way(31, "Quai Branly", &[]),
        relation(
            101,
            &[("type", "associatedStreet")],
            vec![member(OsmId::Way(30), "street"), member(OsmId::Way(31), "street")],
        ),
    ]);
    let list = streets(&map, &AdminLookup::new(), CITY_LEVEL, label, zips);
    assert_eq!(ids(&list), vec!["31".to_string()]);
    assert_eq!(list[0].name, "Quai Branly");
}

#[test]
fn relation_with_an_empty_name_gives_no_street_and_still_claims_its_ways() {
    let map = graph(vec![
        street_way(40, "Rue Basse", &[]),
        relation(
            102,
            &[("type", "associatedStreet"), ("name", "")],
            vec![member(OsmId::Way(40), "street")],
        ),
    ]);
    let list = streets(&map, &AdminLookup::new(), CITY_LEVEL, label, zips);
    assert!(list.is_empty());
}

#[test]
fn relation_skips_members_that_are_absent_or_not_ways() {
    let map = graph(vec![
        node(5, 1, 1),
        street_way(51, "Rue Haute", &[5]),
        relation(
            103,
            &[("type", "associatedStreet"), ("name", "Rue Haute")],
            vec![
                member(OsmId::Node(5), "street"),
                member(OsmId::Way(50), "street"),
                member(OsmId::Way(51), "street"),
            ],
        ),
    ]);
    let list = streets(&map, &AdminLookup::new(), CITY_LEVEL, label, zips);
    assert_eq!(ids(&list), vec!["51".to_string()]);
}

#[test]
fn relation_of_another_type_claims_nothing() {
    let map = graph(vec![
        street_way(60, "Rue Neuve", &[]),
        relation(
            104,
            &[("type", "route"), ("name", "Bus 12")],
            vec![member(OsmId::Way(60), "street")],
        ),
    ]);
    let list = streets(&map, &AdminLookup::new(), CITY_LEVEL, label, zips);
    assert_eq!(ids(&list), vec!["60".to_string()]);
    assert_eq!(list[0].name, "Rue Neuve");
}

#[test]
fn streets_of_relations_come_first_and_in_the_order_of_the_relations() {
    let map = graph(vec![
        street_way(70, "Allée B", &[]),
        street_way(71, "Allée A", &[]),
        street_way(72, "Allée 0", &[]),
        relation(
            201,
            &[("type", "associatedStreet")],
            vec![member(OsmId::Way(71), "street")],
        ),
        relation(
            200,
            &[("type", "associatedStreet")],
            vec![member(OsmId::Way(70), "street")],
        ),
    ]);
    let list = streets(&map, &AdminLookup::new(), CITY_LEVEL, label, zips);
    assert_eq!(ids(&list), vec!["70".to_string(), "71".to_string(), "72".to_string()]);
}

#[test]
fn one_name_in_two_cities_gives_two_streets_in_the_order_of_the_regions() {
    let map = graph(vec![
        node(1, 1, 1),
        node(2, 2, 2),
        street_way(80, "Rue Victor Hugo", &[1]),
        street_way(81, "Rue Victor Hugo", &[2]),
    ]);
    let finder = lookup(vec![
        (coord(1, 1), vec![paris(), france()]),
        (coord(2, 2), vec![lyon(), france()]),
    ]);
    let list = streets(&map, &finder, CITY_LEVEL, label, zips);
    assert_eq!(ids(&list), vec!["81".to_string(), "80".to_string()]);
    assert_eq!(list[0].administrative_regions, vec![lyon(), france()]);
    assert_eq!(list[1].administrative_regions, vec![paris(), france()]);
}

#[test]
fn streets_of_ways_come_in_the_order_of_their_names() {
    let map = graph(vec![
        street_way(90, "Rue Zola", &[]),
        street_way(91, "Avenue Foch", &[]),
        street_way(92, "Rue", &[]),
        street_way(93, "Rue Zola", &[]),
    ]);
    let list = streets(&map, &AdminLookup::new(), CITY_LEVEL, label, zips);
    assert_eq!(ids(&list), vec!["91".to_string(), "92".to_string(), "90".to_string()]);
}

#[test]
fn ways_without_coordinates_merge_on_their_name_alone() {
    let map = graph(vec![
        street_way(95, "Chemin Vert", &[7]),
        street_way(96, "Chemin Vert", &[8, 9]),
    ]);
    let finder = lookup(vec![(coord(0, 0), vec![paris()])]);
    let list = streets(&map, &finder, CITY_LEVEL, label, zips);
    assert_eq!(list.len(), 1);
    assert_eq!(list[0].id, "95");
    assert!(list[0].administrative_regions.is_empty());
    assert_eq!(list[0].coord, None);
    assert_eq!(list[0].label, "Chemin Vert");
    assert!(list[0].zip_codes.is_empty());
}

#[test]
fn way_without_a_name_or_with_an_empty_name_gives_no_street() {
    let map = graph(vec![
        way(97, &[("highway", "track")], &[]),
        way(98, &[("highway", "track"), ("name", "")], &[]),
    ]);
    let list = streets(&map, &AdminLookup::new(), CITY_LEVEL, label, zips);
    assert!(list.is_empty());
}

#[test]
fn street_of_a_way_with_a_negative_number() {
    let map = graph(vec![street_way(-12, "Rue Provisoire", &[])]);
    let list = streets(&map, &AdminLookup::new(), CITY_LEVEL, label, zips);
    assert_eq!(ids(&list), vec!["-12".to_string()]);
}

#[test]
fn no_two_streets_of_ways_share_name_and_city() {
    let map = graph(vec![
        node(1, 1, 1),
        node(2, 2, 2),
        node(3, 3, 3),
        street_way(1, "Rue A", &[1]),
        street_way(2, "Rue A", &[2]),
        street_way(3, "Rue A", &[3]),
        street_way(4, "Rue B", &[1]),
        street_way(5, "Rue B", &[3]),
    ]);
    let finder = lookup(vec![
        (coord(1, 1), vec![paris()]),
        (coord(2, 2), vec![lyon()]),
        (coord(3, 3), vec![france(), paris()]),
    ]);
    let list = streets(&map, &finder, CITY_LEVEL, label, zips);
    assert_eq!(ids(&list), vec!["2".to_string(), "1".to_string(), "4".to_string()]);
    for (i, a) in list.iter().enumerate() {
        for b in list.iter().skip(i + 1) {
            let city_a: Vec<u64> =
                a.administrative_regions.iter().filter(|r| r.level == 8).map(|r| r.id).collect();
            let city_b: Vec<u64> =
                b.administrative_regions.iter().filter(|r| r.level == 8).map(|r| r.id).collect();
            assert!(a.name != b.name || city_a != city_b);
        }
    }
}

#[test]
fn way_coord_is_that_of_the_first_node_in_the_graph() {
    let map = graph(vec![
        node(2, 20, 21),
        node(3, 30, 31),
        street_way(1, "Rue", &[1, 3, 2]),
        street_way(2, "Rue", &[4]),
    ]);
    let first = match map.get(&OsmId::Way(1)) {
        Some(OsmObj::Way(way)) => get_way_coord(&map, way),
        _ => panic!("way 1 is in the graph"),
    };
    assert_eq!(first, Some(coord(30, 31)));
    let second = match map.get(&OsmId::Way(2)) {
        Some(OsmObj::Way(way)) => get_way_coord(&map, way),
        _ => panic!("way 2 is in the graph"),
    };
    assert_eq!(second, None);
}

#[test]
fn street_admin_is_what_the_lookup_gives_at_the_way_coord() {
    let map = graph(vec![
        node(2, 20, 21),
        street_way(1, "Rue", &[1, 2]),
        street_way(2, "Rue", &[1]),
    ]);
    let finder = lookup(vec![(coord(20, 21), vec![paris(), france()])]);
    match map.get(&OsmId::Way(1)) {
        Some(OsmObj::Way(way)) => {
            assert_eq!(get_street_admin(&finder, &map, way), vec![paris(), france()])
        }
        _ => panic!("way 1 is in the graph"),
    }
    match map.get(&OsmId::Way(2)) {
        Some(OsmObj::Way(way)) => assert_eq!(get_street_admin(&finder, &map, way), vec![]),
        _ => panic!("way 2 is in the graph"),
    }
}

#[test]
fn valid_objects_are_named_highways_and_street_relations() {
    assert!(is_valid_obj(&street_way(1, "Rue", &[])));
    assert!(!is_valid_obj(&way(1, &[("highway", "residential")], &[])));
    assert!(!is_valid_obj(&way(1, &[("name", "Rue")], &[])));
    assert!(!is_valid_obj(&way(1, &[("highway", ""), ("name", "Rue")], &[])));
    assert!(!is_valid_obj(&way(1, &[("highway", "path"), ("name", "")], &[])));
    assert!(is_valid_obj(&relation(1, &[("type", "associatedStreet")], vec![])));
    assert!(!is_valid_obj(&relation(1, &[("type", "multipolygon")], vec![])));
    assert!(!is_valid_obj(&relation(1, &[("name", "associatedStreet")], vec![])));
    assert!(!is_valid_obj(&node(1, 0, 0)));
}

fn street_with(admins: Vec<Admin>, weight: u32) -> Street {
    Street {
        id: "1".to_string(),
        name: "Rue".to_string(),
        label: "Rue (Paris)".to_string(),
        weight,
        zip_codes: vec!["75001".to_string()],
        administrative_regions: admins,
        coord: None,
    }
}

#[test]
fn street_weight_is_that_of_the_first_region_at_the_city_level() {
    let second_city = Admin { id: 3, level: 8, weight: 7 };
    let mut list = vec![
        street_with(vec![france(), paris(), second_city], 1),
        street_with(vec![france()], 1),
        street_with(vec![], 1),
        street_with(vec![lyon()], 5),
    ];
    compute_street_weight(&mut list, CITY_LEVEL);
    let weights: Vec<u32> = list.iter().map(|street| street.weight).collect();
    assert_eq!(weights, vec![42, 1, 1, 17]);
    assert_eq!(list[0], street_with(vec![france(), paris(), second_city], 42));
    assert_eq!(list[1], street_with(vec![france()], 1));
    assert_eq!(list[3], street_with(vec![lyon()], 17));
}

#[test]
fn streets_take_their_weight_from_their_city() {
    let map = graph(vec![
        node(1, 1, 1),
        street_way(1, "Rue A", &[1]),
        street_way(2, "Rue B", &[]),
    ]);
    let finder = lookup(vec![(coord(1, 1), vec![france(), paris()])]);
    let mut list = streets(&map, &finder, CITY_LEVEL, label, zips);
    assert!(list.iter().all(|street| street.weight == 1));
    compute_street_weight(&mut list, CITY_LEVEL);
    assert_eq!(list[0].weight, 42);
    assert_eq!(list[1].weight, 1);
    compute_street_weight(&mut list, 2);
    assert_eq!(list[0].weight, 99);
    assert_eq!(list[1].weight, 1);
}

#[test]
fn label_and_zip_codes_are_what_the_caller_makes_of_the_regions() {
    let map = graph(vec![node(1, 1, 1), street_way(1, "Rue A", &[1])]);
    let finder = lookup(vec![(coord(1, 1), vec![lyon(), france()])]);
    let list = streets(
        &map,
        &finder,
        2,
        |admins: &Vec<Admin>, level: u32, name: &String| format!("{}/{}/{}", name, level, admins.len()),
        |admins: &Vec<Admin>| vec![admins.len().to_string()],
    );
    assert_eq!(list.len(), 1);
    assert_eq!(list[0].label, "Rue A/2/2");
    assert_eq!(list[0].zip_codes, vec!["2".to_string()]);
}
