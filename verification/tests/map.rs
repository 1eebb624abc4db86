use bimap::{BiMap, BiMapBuilder};
use std::cell::Cell;
use std::collections::HashSet;
use std::hash::{BuildHasher, BuildHasherDefault, Hasher};
use std::rc::Rc;

/// Hashes an integer to itself.
#[derive(Default)]
struct Identity(u64);

impl Hasher for Identity {
    fn finish(&self) -> u64 {
        self.0
    }

    fn write(&mut self, bytes: &[u8]) {
        for byte in bytes {
            self.0 = self.0 << 8 | *byte as u64;
        }
    }

    fn write_u32(&mut self, n: u32) {
        self.0 = n as u64;
    }

    fn write_u64(&mut self, n: u64) {
        self.0 = n;
    }
}

/// Hashes an integer to 32 times itself.
#[derive(Default)]
struct Strided(u64);

impl Hasher for Strided {
    fn finish(&self) -> u64 {
        self.0
    }

    fn write(&mut self, _bytes: &[u8]) {
        unreachable!()
    }

    fn write_u32(&mut self, n: u32) {
        self.0 = 32 * n as u64;
    }
}

type Plain = BuildHasherDefault<Identity>;

fn narrow() -> BiMap<u32, u32, Plain, Plain, u8> {
    BiMapBuilder::new()
        .left_hasher(Plain::default())
        .right_hasher(Plain::default())
        .bitfield::<u8>()
        .finish()
}

fn wide() -> BiMap<u32, u32, Plain, Plain> {
    BiMapBuilder::new().left_hasher(Plain::default()).right_hasher(Plain::default()).finish()
}

/// The number of buckets in each table of a map.
fn buckets<M: std::fmt::Debug>(map: &M) -> usize {
    format!("{:?}", map).matches("neighbourhood").count() / 2
}

#[test]
fn test_iteration_empty() {
    let map: BiMap<(), ()> = BiMap::new();
    assert_eq!((&map).into_iter().next(), None);
    assert_eq!(map.into_iter().next(), None);
}

#[test]
fn a_new_map_holds_nothing() {
    let map: BiMap<u32, String> = BiMap::new();
    assert_eq!(map.get_left(&1), None);
    assert_eq!(map.get_right("one"), None);
    assert_eq!(map.iter().count(), 0);
    assert_eq!(map.capacity(), 29);
    assert!(map.invariants());
    let default: BiMap<u32, String> = Default::default();
    assert_eq!(default.capacity(), 29);
    assert_eq!(default.into_iter().count(), 0);
}

#[test]
fn pairs_are_found_from_both_sides() {
    let mut map = BiMap::new();
    assert_eq!(map.insert(1u32, "one".to_string()), (None, None));
    assert_eq!(map.insert(2u32, "two".to_string()), (None, None));
    assert_eq!(map.get_left(&1), Some(&"one".to_string()));
    assert_eq!(map.get_left(&2), Some(&"two".to_string()));
    assert_eq!(map.get_left(&3), None);
    assert_eq!(map.get_right("one"), Some(&1));
    assert_eq!(map.get_right("two"), Some(&2));
    assert_eq!(map.get_right("three"), None);
    assert!(map.invariants());
}

#[test]
fn insert_returns_the_former_right_key() {
    let mut map = BiMap::new();
    map.insert(1u32, 'a');
    assert_eq!(map.insert(1, 'b'), (Some('a'), None));
    assert_eq!(map.get_left(&1), Some(&'b'));
    assert_eq!(map.get_right(&'a'), None);
    assert_eq!(map.get_right(&'b'), Some(&1));
    assert_eq!(map.iter().count(), 1);
}

#[test]
fn insert_returns_the_former_left_key() {
    let mut map = BiMap::new();
    map.insert(1u32, 'a');
    assert_eq!(map.insert(2, 'a'), (None, Some(1)));
    assert_eq!(map.get_left(&1), None);
    assert_eq!(map.get_left(&2), Some(&'a'));
    assert_eq!(map.get_right(&'a'), Some(&2));
    assert_eq!(map.iter().count(), 1);
}

#[test]
fn insert_returns_both_former_keys() {
    let mut map = BiMap::new();
    map.insert(1u32, 'a');
    map.insert(2, 'b');
    map.insert(3, 'c');
    assert_eq!(map.insert(1, 'b'), (Some('a'), Some(2)));
    assert_eq!(map.get_left(&1), Some(&'b'));
    assert_eq!(map.get_left(&2), None);
    assert_eq!(map.get_right(&'a'), None);
    assert_eq!(map.get_right(&'b'), Some(&1));
    assert_eq!(map.get_left(&3), Some(&'c'));
    assert_eq!(map.iter().count(), 2);
}

#[test]
fn inserting_a_pair_again_returns_it() {
    let mut map = BiMap::new();
    map.insert(1u32, 'a');
    assert_eq!(map.insert(1, 'a'), (Some('a'), Some(1)));
    assert_eq!(map.get_left(&1), Some(&'a'));
    assert_eq!(map.get_right(&'a'), Some(&1));
    assert_eq!(map.iter().count(), 1);
}

#[test]
fn remove_left_removes_the_pair() {
    let mut map = BiMap::new();
    map.insert(1u32, 'a');
    map.insert(2, 'b');
    assert_eq!(map.remove_left(&1), Some('a'));
    assert_eq!(map.remove_left(&1), None);
    assert_eq!(map.get_left(&1), None);
    assert_eq!(map.get_right(&'a'), None);
    assert_eq!(map.get_left(&2), Some(&'b'));
    assert!(map.invariants());
}

#[test]
fn remove_right_removes_the_pair() {
    let mut map = BiMap::new();
    map.insert(1u32, 'a');
    map.insert(2, 'b');
    assert_eq!(map.remove_right(&'b'), Some(2));
    assert_eq!(map.remove_right(&'b'), None);
    assert_eq!(map.get_left(&2), None);
    assert_eq!(map.get_right(&'b'), None);
    assert_eq!(map.get_right(&'a'), Some(&1));
    assert!(map.invariants());
}

#[test]
fn keys_are_found_in_borrowed_form() {
    let mut map: BiMap<String, Box<u32>> = BiMap::new();
    map.insert("one".to_string(), Box::new(1));
    map.insert("two".to_string(), Box::new(2));
    assert_eq!(map.get_left("one"), Some(&Box::new(1)));
    assert_eq!(map.get_right(&2u32), Some(&"two".to_string()));
    assert_eq!(map.get_left(&"two".to_string()), Some(&Box::new(2)));
    assert_eq!(map.remove_left("one"), Some(Box::new(1)));
    assert_eq!(map.remove_right(&2u32), Some("two".to_string()));
    assert_eq!(map.into_iter().count(), 0);
}

#[test]
fn many_pairs_are_kept() {
    let mut map = BiMap::new();
    for i in 0..1000u32 {
        assert_eq!(map.insert(i, i.to_string()), (None, None));
    }
    assert!(map.invariants());
    for i in 0..1000u32 {
        assert_eq!(map.get_left(&i), Some(&i.to_string()));
        assert_eq!(map.get_right(i.to_string().as_str()), Some(&i));
    }
    assert_eq!(map.get_left(&1000), None);
    let seen: HashSet<(u32, String)> = map.iter().map(|(l, r)| (*l, r.clone())).collect();
    assert_eq!(seen.len(), 1000);
    assert_eq!(map.iter().count(), 1000);
    for i in (0..1000u32).step_by(2) {
        assert_eq!(map.remove_left(&i), Some(i.to_string()));
    }
    assert!(map.invariants());
    let mut left: Vec<(u32, String)> = map.into_iter().collect();
    left.sort();
    let odd: Vec<(u32, String)> = (1..1000u32).step_by(2).map(|i| (i, i.to_string())).collect();
    assert_eq!(left, odd);
}

#[test]
fn iteration_goes_by_the_left_buckets() {
    let mut map = wide();
    for (l, r) in [(40u32, 7u32), (3, 9), (31, 1), (0, 5)] {
        map.insert(l, r);
    }
    let borrowed: Vec<(u32, u32)> = (&map).into_iter().map(|(l, r)| (*l, *r)).collect();
    assert_eq!(borrowed, vec![(0, 5), (3, 9), (40, 7), (31, 1)]);
    let iterated: Vec<(u32, u32)> = map.iter().map(|(l, r)| (*l, *r)).collect();
    assert_eq!(iterated, borrowed);
    let owned: Vec<(u32, u32)> = map.into_iter().collect();
    assert_eq!(owned, borrowed);
}

#[test]
fn capacity_is_bounded_by_the_load_and_the_neighbourhood() {
    assert_eq!(wide().capacity(), (32f32 / 1.1).floor() as usize);
    assert_eq!(wide().capacity(), 29);
    assert_eq!(narrow().capacity(), 8);
    let mut map = wide();
    for i in 0..33u32 {
        map.insert(i, i);
    }
    assert_eq!(buckets(&map), 64);
    assert_eq!(map.capacity(), 32);
}

#[test]
fn a_map_within_its_capacity_is_not_resized() {
    let mut crowded = narrow();
    for i in 0..8u32 {
        assert!(i as usize + 1 <= crowded.capacity());
        crowded.insert(1024 * i, 1024 * i);
        assert_eq!(buckets(&crowded), 32);
    }
    let mut map = wide();
    for i in 0..29u32 {
        assert!(i as usize + 1 <= map.capacity());
        map.insert(1024 * i, 1024 * i);
        assert_eq!(buckets(&map), 32);
        assert_eq!(map.capacity(), 29);
    }
    for i in 0..29u32 {
        map.insert(1024 * i, 1024 * (28 - i));
        assert_eq!(buckets(&map), 32);
    }
}

#[test]
fn full_tables_are_doubled() {
    let mut map = wide();
    let mut expected: usize = 32;
    for i in 0..600u32 {
        map.insert(i, i);
        if i as usize + 1 > expected {
            expected *= 2;
        }
        assert_eq!(buckets(&map), expected);
    }
    assert_eq!(expected, 1024);
}

#[test]
fn displaced_keys_keep_their_partners() {
    let mut map = narrow();
    for i in 0..7u32 {
        map.insert(i, 31 - i);
    }
    map.insert(37, 20);
    map.insert(32, 19);
    map.insert(64, 18);
    assert_eq!(buckets(&map), 32);
    assert!(map.invariants());
    for i in 0..7u32 {
        assert_eq!(map.get_left(&i), Some(&(31 - i)));
        assert_eq!(map.get_right(&(31 - i)), Some(&i));
    }
    for (l, r) in [(37u32, 20u32), (32, 19), (64, 18)] {
        assert_eq!(map.get_left(&l), Some(&r));
        assert_eq!(map.get_right(&r), Some(&l));
    }
}

#[test]
fn a_crowded_neighbourhood_makes_the_map_grow() {
    let mut map = narrow();
    for i in 0..8u32 {
        map.insert(32 * i, i);
    }
    assert_eq!(buckets(&map), 32);
    map.insert(32 * 8, 8);
    assert_eq!(buckets(&map), 64);
    assert!(map.invariants());
    for i in 0..9u32 {
        assert_eq!(map.get_left(&(32 * i)), Some(&i));
        assert_eq!(map.get_right(&i), Some(&(32 * i)));
    }
}

#[test]
fn a_crowded_right_neighbourhood_makes_the_map_grow() {
    let mut map = narrow();
    for i in 0..8u32 {
        map.insert(i, 32 * i);
    }
    assert_eq!(buckets(&map), 32);
    map.insert(8, 32 * 8);
    assert_eq!(buckets(&map), 64);
    assert!(map.invariants());
    for i in 0..9u32 {
        assert_eq!(map.get_left(&i), Some(&(32 * i)));
    }
}

#[test]
fn growing_may_take_several_doublings() {
    let mut map = narrow();
    for i in 0..9u32 {
        map.insert(256 * i, i);
    }
    assert_eq!(buckets(&map), 512);
    assert!(map.invariants());
    for i in 0..9u32 {
        assert_eq!(map.get_left(&(256 * i)), Some(&i));
    }
}

#[test]
fn a_replaced_pair_leaves_its_place() {
    let mut map = narrow();
    for i in 0..8u32 {
        map.insert(32 * i, i);
    }
    assert_eq!(map.insert(0, 100), (Some(0), None));
    assert_eq!(map.insert(32, 100), (Some(1), Some(0)));
    assert_eq!(map.insert(512, 3), (None, Some(96)));
    assert_eq!(buckets(&map), 32);
    assert!(map.invariants());
}

#[test]
fn inserting_a_stored_pair_again_does_not_grow_the_map() {
    let mut map = narrow();
    for i in 0..8u32 {
        map.insert(32 * i, 32 * i);
    }
    for i in 0..8u32 {
        assert_eq!(map.insert(32 * i, 32 * i), (Some(32 * i), Some(32 * i)));
        assert_eq!(buckets(&map), 32);
    }
    map.insert(256, 256);
    assert_eq!(buckets(&map), 64);
}

#[test]
fn a_displaced_pair_may_make_the_room_or_not() {
    let mut map = narrow();
    for i in 0..8u32 {
        map.insert(32 * i, i);
    }
    map.insert(9, 9);
    assert_eq!(map.insert(256, 0), (None, Some(0)));
    assert_eq!(buckets(&map), 32);
    assert_eq!(map.insert(288, 9), (None, Some(9)));
    assert_eq!(buckets(&map), 64);
    assert!(map.invariants());
}

/// A name that is compared and hashed without regard to case.
#[derive(Debug, Clone)]
struct Name(&'static str);

impl PartialEq for Name {
    fn eq(&self, other: &Name) -> bool {
        self.0.eq_ignore_ascii_case(other.0)
    }
}

impl Eq for Name {}

impl std::hash::Hash for Name {
    fn hash<H: Hasher>(&self, state: &mut H) {
        self.0.to_ascii_lowercase().hash(state);
    }
}

#[test]
fn the_instances_inserted_last_are_stored() {
    let mut map = BiMap::new();
    map.insert(Name("ada"), Name("lovelace"));
    let (right, left) = map.insert(Name("Ada"), Name("Lovelace"));
    assert_eq!(right.unwrap().0, "lovelace");
    assert_eq!(left.unwrap().0, "ada");
    assert_eq!(map.get_left(&Name("ADA")).unwrap().0, "Lovelace");
    assert_eq!(map.get_right(&Name("LOVELACE")).unwrap().0, "Ada");
    assert_eq!(map.iter().count(), 1);
}

#[test]
fn equal_keys_of_two_pairs_are_replaced() {
    let mut map = BiMap::new();
    map.insert(Name("ada"), Name("lovelace"));
    map.insert(Name("alan"), Name("turing"));
    map.insert(Name("grace"), Name("hopper"));
    let (right, left) = map.insert(Name("ADA"), Name("TURING"));
    assert_eq!(right.unwrap().0, "lovelace");
    assert_eq!(left.unwrap().0, "alan");
    assert_eq!(map.get_left(&Name("alan")), None);
    assert_eq!(map.get_right(&Name("lovelace")), None);
    let mut pairs: Vec<(&str, &str)> = map.iter().map(|(l, r)| (l.0, r.0)).collect();
    pairs.sort();
    assert_eq!(pairs, vec![("ADA", "TURING"), ("grace", "hopper")]);
    assert_eq!(map.remove_left(&Name("Grace")).unwrap().0, "hopper");
    assert_eq!(map.remove_right(&Name("Turing")).unwrap().0, "ADA");
    assert_eq!(map.iter().count(), 0);
    assert!(map.invariants());
}

/// Builds hashers as usual, but hashes at one stroke otherwise.
struct OddStroke;

impl BuildHasher for OddStroke {
    type Hasher = Identity;

    fn build_hasher(&self) -> Identity {
        Identity::default()
    }

    fn hash_one<T: std::hash::Hash>(&self, _value: T) -> u64
    where
        Self: Sized,
    {
        unreachable!()
    }
}

#[test]
fn hashers_are_built_fed_and_finished() {
    let mut map: BiMap<u32, u32, OddStroke, OddStroke> =
        BiMapBuilder::new().left_hasher(OddStroke).right_hasher(OddStroke).finish();
    map.insert(5, 6);
    map.insert(37, 38);
    assert_eq!(map.get_left(&37), Some(&38));
    assert_eq!(map.get_right(&6), Some(&5));
    assert!(map.invariants());
}

#[test]
fn a_new_map_of_any_keys_is_empty() {
    let mut map: BiMap<Name, Name> = BiMap::new();
    assert_eq!(map.get_left(&Name("x")), None);
    assert_eq!(map.get_right(&Name("x")), None);
    assert_eq!(map.remove_left(&Name("x")), None);
    assert_eq!(map.remove_right(&Name("x")), None);
    assert_eq!(map.iter().count(), 0);
    assert_eq!(map.insert(Name("x"), Name("y")), (None, None));
}

#[test]
fn the_hasher_decides_where_keys_go() {
    let mut map: BiMap<u32, u32, BuildHasherDefault<Strided>, Plain, u8> = BiMapBuilder::new()
        .left_hasher(BuildHasherDefault::default())
        .right_hasher(Plain::default())
        .bitfield::<u8>()
        .finish();
    for i in 0..9u32 {
        map.insert(i, i);
    }
    assert_eq!(buckets(&map), 64);
    let order: Vec<u32> = map.iter().map(|(l, _)| *l).collect();
    assert_eq!(order, vec![8, 0, 2, 4, 6, 1, 3, 5, 7]);
}

#[test]
fn keys_that_hash_alike_are_told_apart() {
    let mut map = narrow();
    map.insert(5, 1);
    map.insert(37, 2);
    map.insert(69, 3);
    assert_eq!(map.get_left(&37), Some(&2));
    assert_eq!(map.get_left(&69), Some(&3));
    assert_eq!(map.get_left(&101), None);
    assert_eq!(map.remove_left(&5), Some(1));
    assert_eq!(map.get_left(&5), None);
    assert_eq!(map.get_left(&37), Some(&2));
    assert_eq!(map.get_right(&33), None);
}

/// Builds hashers that add whatever the counter says.
struct Fickle(Rc<Cell<u64>>);

impl BuildHasher for Fickle {
    type Hasher = Shifted;

    fn build_hasher(&self) -> Shifted {
        Shifted { shift: self.0.get(), sum: 0 }
    }
}

struct Shifted {
    shift: u64,
    sum: u64,
}

impl Hasher for Shifted {
    fn finish(&self) -> u64 {
        self.shift + self.sum
    }

    fn write(&mut self, _bytes: &[u8]) {
        unreachable!()
    }

    fn write_u32(&mut self, n: u32) {
        self.sum = n as u64;
    }
}

#[test]
fn invariants_notices_keys_that_hash_otherwise() {
    let shift = Rc::new(Cell::new(0));
    let mut map: BiMap<u32, u32, Fickle, Plain> = BiMapBuilder::new()
        .left_hasher(Fickle(shift.clone()))
        .right_hasher(Plain::default())
        .finish();
    assert!(map.invariants());
    map.insert(1, 1);
    assert!(map.invariants());
    assert_eq!(map.get_left(&1), Some(&1));
    shift.set(1);
    assert!(!map.invariants());
    assert_eq!(map.get_left(&1), None);
    shift.set(0);
    assert!(map.invariants());
    assert_eq!(map.remove_left(&1), Some(1));
    shift.set(1);
    assert!(map.invariants());
}

#[test]
fn maps_can_be_shown() {
    let mut map: BiMap<u32, char> = BiMap::new();
    map.insert(7, 'x');
    let shown = format!("{:?}", map);
    assert!(shown.contains("BiMap"));
    assert!(shown.contains("'x'"));
}

#[test]
fn a_mixed_run_agrees_with_a_plain_list() {
    let mut map = narrow();
    let mut list: Vec<(u32, u32)> = Vec::new();
    let mut state: u32 = 12345;
    for _ in 0..4000 {
        state = state.wrapping_mul(1664525).wrapping_add(1013904223);
        let l = state >> 16 & 127;
        let r = state >> 24 & 127;
        if state >> 8 & 3 == 0 {
            let expected = list.iter().find(|p| p.0 == l).map(|p| p.1);
            list.retain(|p| p.0 != l);
            assert_eq!(map.remove_left(&l), expected);
        } else if state >> 8 & 3 == 1 {
            let expected = list.iter().find(|p| p.1 == r).map(|p| p.0);
            list.retain(|p| p.1 != r);
            assert_eq!(map.remove_right(&r), expected);
        } else {
            let former_right = list.iter().find(|p| p.0 == l).map(|p| p.1);
            let former_left = list.iter().find(|p| p.1 == r).map(|p| p.0);
            list.retain(|p| p.0 != l && p.1 != r);
            list.push((l, r));
            assert_eq!(map.insert(l, r), (former_right, former_left));
        }
        assert!(map.invariants());
        for p in &list {
            assert_eq!(map.get_left(&p.0), Some(&p.1));
            assert_eq!(map.get_right(&p.1), Some(&p.0));
        }
        assert_eq!(map.iter().count(), list.len());
    }
    let mut pairs: Vec<(u32, u32)> = map.into_iter().collect();
    pairs.sort();
    list.sort();
    assert_eq!(pairs, list);
}
