use mimirsbrunn::osm::{Node, ObjMap, OsmId, OsmObj, Relation, Way};
use osmpbfreader::Tags;

fn node(id: i64) -> OsmObj {
    OsmObj::Node(Node { id, tags: Tags::new(), decimicro_lat: 0, decimicro_lon: 0 })
}

fn way(id: i64, nodes: Vec<i64>) -> OsmObj {
    OsmObj::Way(Way { id, tags: Tags::new(), nodes })
}

fn relation(id: i64) -> OsmObj {
    OsmObj::Relation(Relation { id, tags: Tags::new(), refs: vec![] })
}

#[test]
fn identifiers_are_ordered_by_kind_then_number() {
    assert!(OsmId::Node(9).lt(&OsmId::Way(1)));
    assert!(OsmId::Way(9).lt(&OsmId::Relation(-3)));
    assert!(OsmId::Node(9).lt(&OsmId::Relation(1)));
    assert!(OsmId::Way(-2).lt(&OsmId::Way(1)));
    assert!(!OsmId::Way(1).lt(&OsmId::Way(1)));
    assert!(!OsmId::Relation(1).lt(&OsmId::Node(5)));
}

#[test]
fn identifier_kinds_and_numbers() {
    assert!(OsmId::Node(1).is_node());
    assert!(!OsmId::Node(1).is_way());
    assert!(OsmId::Way(1).is_way());
    assert!(!OsmId::Way(1).is_relation());
    assert!(OsmId::Relation(1).is_relation());
    assert!(!OsmId::Relation(1).is_node());
    assert_eq!(OsmId::Relation(-7).inner_id(), -7);
    assert_eq!(OsmId::Way(8).inner_id(), 8);
    assert_eq!(OsmId::Node(i64::MIN).inner_id(), i64::MIN);
}

#[test]
fn object_accessors() {
    let n = node(1);
    let w = way(2, vec![1]);
    let r = relation(3);
    assert_eq!(n.id(), OsmId::Node(1));
    assert_eq!(w.id(), OsmId::Way(2));
    assert_eq!(r.id(), OsmId::Relation(3));
    assert!(n.node().is_some() && n.way().is_none() && n.relation().is_none());
    assert!(w.way().is_some() && w.node().is_none() && w.relation().is_none());
    assert!(r.relation().is_some() && r.node().is_none() && r.way().is_none());
    assert_eq!(w.way().map(|way| way.nodes.clone()), Some(vec![1]));
}

#[test]
fn map_keeps_its_objects_in_the_order_of_their_identifiers() {
    let mut map = ObjMap::new();
    assert_eq!(map.len(), 0);
    for obj in vec![relation(1), way(5, vec![]), node(7), way(2, vec![]), node(-1), relation(0)] {
        map.insert(obj);
    }
    assert_eq!(map.len(), 6);
    let order: Vec<OsmId> = (0..map.len()).map(|i| map.nth(i).id()).collect();
    assert_eq!(
        order,
        vec![
            OsmId::Node(-1),
            OsmId::Node(7),
            OsmId::Way(2),
            OsmId::Way(5),
            OsmId::Relation(0),
            OsmId::Relation(1),
        ]
    );
}

#[test]
fn map_insert_replaces_the_object_of_the_same_identifier() {
    let mut map = ObjMap::new();
    map.insert(way(5, vec![1]));
    map.insert(node(5));
    map.insert(way(5, vec![2, 3]));
    assert_eq!(map.len(), 2);
    match map.get(&OsmId::Way(5)) {
        Some(OsmObj::Way(way)) => assert_eq!(way.nodes, vec![2, 3]),
        _ => panic!("way 5 is in the map"),
    }
    assert!(map.get(&OsmId::Node(5)).is_some());
    assert!(map.get(&OsmId::Relation(5)).is_none());
    assert!(map.get(&OsmId::Way(4)).is_none());
    assert!(map.get(&OsmId::Way(6)).is_none());
}

#[test]
fn map_finds_every_object_it_holds() {
    let mut map = ObjMap::new();
    for id in [8, 3, 5, 1, 9, 2, 7] {
        map.insert(way(id, vec![id * 10]));
    }
    for id in [1, 2, 3, 5, 7, 8, 9] {
        match map.get(&OsmId::Way(id)) {
            Some(OsmObj::Way(way)) => assert_eq!(way.nodes, vec![id * 10]),
            _ => panic!("the way is in the map"),
        }
    }
    for id in [0, 4, 6, 10] {
        assert!(map.get(&OsmId::Way(id)).is_none());
    }
    assert!(ObjMap::new().get(&OsmId::Way(1)).is_none());
}
