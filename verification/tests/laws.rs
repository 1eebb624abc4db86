use bimap::{BiMap, BiMapBuilder};
use std::collections::hash_map::DefaultHasher;
use std::collections::BTreeSet;
use std::hash::BuildHasherDefault;

type Fixed = BuildHasherDefault<DefaultHasher>;

fn filled(pairs: &[(u32, u32)]) -> BiMap<u32, u32> {
    let mut map = BiMap::new();
    for (l, r) in pairs {
        map.insert(*l, *r);
    }
    map
}

fn contents(map: &BiMap<u32, u32>) -> BTreeSet<(u32, u32)> {
    map.iter().map(|(l, r)| (*l, *r)).collect()
}

fn set(pairs: &[(u32, u32)]) -> BTreeSet<(u32, u32)> {
    pairs.iter().copied().collect()
}

#[test]
fn relations_stay_one_to_one() {
    let map = filled(&[(1, 10), (2, 20), (1, 20), (3, 10), (2, 30)]);
    assert_eq!(contents(&map), set(&[(1, 20), (3, 10), (2, 30)]));
}

#[test]
fn iteration_has_every_pair_once() {
    let map = filled(&[(1, 10), (2, 20), (3, 30)]);
    assert_eq!(map.iter().count(), 3);
    assert_eq!(contents(&map), set(&[(1, 10), (2, 20), (3, 30)]));
}

#[test]
fn lookups_agree_with_the_relation() {
    let map = filled(&[(1, 10), (2, 20)]);
    assert_eq!(map.get_left(&2), Some(&20));
    assert_eq!(map.get_left(&20), None);
    assert_eq!(map.get_right(&20), Some(&2));
    assert_eq!(map.get_right(&2), None);
}

#[test]
fn lookups_lead_back() {
    let map = filled(&[(1, 10), (2, 20)]);
    for l in [1, 2] {
        assert_eq!(map.get_right(map.get_left(&l).unwrap()), Some(&l));
    }
    for r in [10, 20] {
        assert_eq!(map.get_left(map.get_right(&r).unwrap()), Some(&r));
    }
}

#[test]
fn inserted_pairs_are_found() {
    let mut map = filled(&[(1, 10), (2, 20)]);
    map.insert(1, 20);
    assert_eq!(map.get_left(&1), Some(&20));
    assert_eq!(map.get_right(&20), Some(&1));
}

#[test]
fn insertion_leaves_other_pairs() {
    let mut map = filled(&[(1, 10), (2, 20), (3, 30)]);
    map.insert(1, 20);
    assert_eq!(map.get_left(&3), Some(&30));
    assert_eq!(map.get_right(&30), Some(&3));
}

#[test]
fn insertion_leaves_former_partners_alone() {
    let mut map = filled(&[(1, 10), (2, 20)]);
    map.insert(1, 20);
    assert_eq!(map.get_right(&10), None);
    assert_eq!(map.get_left(&2), None);
}

#[test]
fn inserting_twice_is_inserting_once() {
    let mut map = filled(&[(1, 10), (2, 20)]);
    let before = contents(&map);
    map.insert(2, 20);
    assert_eq!(contents(&map), before);
}

#[test]
fn the_last_insertion_of_a_key_counts() {
    let twice = filled(&[(1, 10), (2, 20), (2, 30), (2, 10)]);
    let once = filled(&[(1, 10), (2, 20), (2, 10)]);
    assert_eq!(contents(&twice), contents(&once));
}

#[test]
fn removal_by_left_takes_both_keys() {
    let mut map = filled(&[(1, 10), (2, 20)]);
    assert_eq!(map.remove_left(&1), Some(10));
    assert_eq!(map.get_left(&1), None);
    assert_eq!(map.get_right(&10), None);
    assert_eq!(contents(&map), set(&[(2, 20)]));
}

#[test]
fn removal_by_right_takes_both_keys() {
    let mut map = filled(&[(1, 10), (2, 20)]);
    assert_eq!(map.remove_right(&10), Some(1));
    assert_eq!(map.get_left(&1), None);
    assert_eq!(map.get_right(&10), None);
    assert_eq!(contents(&map), set(&[(2, 20)]));
}

#[test]
fn removal_undoes_insertion() {
    let mut map = filled(&[(1, 10), (2, 20)]);
    let before = contents(&map);
    map.insert(3, 30);
    map.remove_left(&3);
    assert_eq!(contents(&map), before);
    map.insert(3, 30);
    map.remove_right(&30);
    assert_eq!(contents(&map), before);
}

#[test]
fn sizes_follow_insertions_and_removals() {
    let mut map = filled(&[(1, 10), (2, 20)]);
    map.insert(3, 30);
    assert_eq!(map.iter().count(), 3);
    map.insert(1, 30);
    assert_eq!(map.iter().count(), 2);
    map.remove_left(&2);
    assert_eq!(map.iter().count(), 1);
}

#[test]
fn small_maps_do_not_grow() {
    let mut map = BiMap::new();
    for i in 0..32u32 {
        map.insert(i, 7 * i);
        assert_eq!(map.capacity(), 29);
    }
    map.insert(32, 32);
    assert_eq!(map.capacity(), 32);
}

#[test]
fn capacity_bounds_the_pairs_held_without_resizing() {
    let mut map = BiMap::new();
    let capacity = map.capacity();
    for i in 0..capacity as u32 {
        map.insert(i, i);
        assert_eq!(map.capacity(), capacity);
    }
    assert_eq!(map.iter().count(), capacity);
}

#[test]
fn borrowed_lookups_agree_with_iteration() {
    let mut map: BiMap<String, Box<u32>> = BiMap::new();
    for (l, r) in [("one", 1), ("two", 2), ("three", 3)] {
        map.insert(l.to_string(), Box::new(r));
    }
    for query in ["one", "two", "three", "four"] {
        let listed = map.iter().find(|p| p.0.as_str() == query).map(|p| p.1);
        assert_eq!(map.get_left(query), listed);
    }
    for query in [1u32, 2, 3, 4] {
        let listed = map.iter().find(|p| **p.1 == query).map(|p| p.0);
        assert_eq!(map.get_right(&query), listed);
    }
}

#[test]
fn borrowed_removals_leave_what_does_not_match() {
    let mut map: BiMap<String, Box<u32>> = BiMap::new();
    for (l, r) in [("one", 1), ("two", 2), ("three", 3)] {
        map.insert(l.to_string(), Box::new(r));
    }
    assert_eq!(map.remove_left("two"), Some(Box::new(2)));
    assert_eq!(map.get_left("two"), None);
    assert_eq!(map.get_right(&2u32), None);
    assert_eq!(map.remove_left("two"), None);
    assert_eq!(map.remove_right(&3u32), Some("three".to_string()));
    assert_eq!(map.get_right(&3u32), None);
    assert_eq!(map.get_left("three"), None);
    assert_eq!(map.get_left("one"), Some(&Box::new(1)));
    assert_eq!(map.iter().count(), 1);
}

#[test]
fn removal_from_either_side_leaves_the_same_tables() {
    let pairs = [(3u32, 40u32), (35, 8), (67, 72), (4, 9)];
    let build = || {
        let mut map: BiMap<u32, u32, Fixed, Fixed> =
            BiMapBuilder::new().left_hasher(Fixed::default()).right_hasher(Fixed::default()).finish();
        for (l, r) in pairs {
            map.insert(l, r);
        }
        map
    };
    for (l, r) in pairs {
        let mut by_left = build();
        let mut by_right = build();
        assert_eq!(by_left.remove_left(&l), Some(r));
        assert_eq!(by_right.remove_right(&r), Some(l));
        assert_eq!(format!("{:?}", by_left), format!("{:?}", by_right));
        for (other_l, other_r) in pairs {
            if other_l == l {
                assert_eq!(by_left.get_left(&l), None);
                assert_eq!(by_left.get_right(&r), None);
            } else {
                assert_eq!(by_left.get_left(&other_l), Some(&other_r));
                assert_eq!(by_left.get_right(&other_r), Some(&other_l));
            }
        }
    }
}
