use mimirsbrunn::admin::{admins_at_level, Admin, AdminLookup, AdminSet, Coord};

fn admin(id: u64, level: u32) -> Admin {
    Admin { id, level, weight: 1 }
}

#[test]
fn lookup_gives_the_regions_recorded_for_a_coordinate() {
    let here = Coord { decimicro_lat: 1, decimicro_lon: 2 };
    let there = Coord { decimicro_lat: 2, decimicro_lon: 1 };
    let mut lookup = AdminLookup::new();
    assert_eq!(lookup.get(&here), vec![]);
    lookup.insert(here, vec![admin(1, 8), admin(2, 2)]);
    lookup.insert(there, vec![admin(3, 8)]);
    assert_eq!(lookup.get(&here), vec![admin(1, 8), admin(2, 2)]);
    assert_eq!(lookup.get(&there), vec![admin(3, 8)]);
    assert_eq!(lookup.get(&Coord { decimicro_lat: 1, decimicro_lon: 1 }), vec![]);
}

#[test]
fn lookup_insert_replaces_what_was_recorded() {
    let here = Coord { decimicro_lat: -5, decimicro_lon: 5 };
    let mut lookup = AdminLookup::new();
    lookup.insert(here, vec![admin(1, 8)]);
    lookup.insert(here, vec![admin(2, 8), admin(3, 6)]);
    assert_eq!(lookup.get(&here), vec![admin(2, 8), admin(3, 6)]);
    lookup.insert(here, vec![]);
    assert_eq!(lookup.get(&here), vec![]);
}

#[test]
fn set_holds_each_identity_once_in_increasing_order() {
    let mut set = AdminSet::new();
    assert_eq!(set.len(), 0);
    for id in [5, 3, 9, 3, 1, 9, 5, 4] {
        set.insert(id);
    }
    assert_eq!(set.ids(), &vec![1, 3, 4, 5, 9]);
    assert_eq!(set.len(), 5);
    assert!(set.contains(4));
    assert!(set.contains(1));
    assert!(set.contains(9));
    assert!(!set.contains(2));
    assert!(!AdminSet::new().contains(0));
}

#[test]
fn regions_at_a_level_form_a_set() {
    let regions = vec![admin(7, 8), admin(1, 2), admin(3, 8), admin(7, 8), admin(2, 8), admin(9, 9)];
    assert_eq!(admins_at_level(&regions, 8).ids(), &vec![2, 3, 7]);
    assert_eq!(admins_at_level(&regions, 2).ids(), &vec![1]);
    assert_eq!(admins_at_level(&regions, 4).ids(), &Vec::<u64>::new());
    assert_eq!(admins_at_level(&vec![], 8), AdminSet::new());
    let other_order = vec![admin(2, 8), admin(3, 8), admin(7, 8)];
    assert_eq!(admins_at_level(&regions, 8), admins_at_level(&other_order, 8));
}

#[test]
fn lookup_tells_far_coordinates_apart() {
    let corners = [
        Coord { decimicro_lat: i32::MIN, decimicro_lon: i32::MIN },
        Coord { decimicro_lat: i32::MIN, decimicro_lon: i32::MAX },
        Coord { decimicro_lat: i32::MAX, decimicro_lon: i32::MIN },
        Coord { decimicro_lat: i32::MAX, decimicro_lon: i32::MAX },
        Coord { decimicro_lat: 0, decimicro_lon: -1 },
        Coord { decimicro_lat: -1, decimicro_lon: 0 },
        Coord { decimicro_lat: 0, decimicro_lon: 0 },
        Coord { decimicro_lat: -1, decimicro_lon: -1 },
    ];
    let mut lookup = AdminLookup::new();
    for (i, corner) in corners.iter().enumerate() {
        lookup.insert(*corner, vec![admin(i as u64, 8)]);
    }
    for (i, corner) in corners.iter().enumerate() {
        assert_eq!(lookup.get(corner), vec![admin(i as u64, 8)]);
    }
}
