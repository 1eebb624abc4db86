use bimap::bucket::Bucket;
use bimap::listing::{borrow_pairs, into_pairs};
use bimap::table::{insert_one_sided, mark_as_empty, mark_as_full, point, settle, vacate};

type Table = Vec<Bucket<u32, u8>>;

fn tables(len: usize) -> (Table, Table) {
    (Bucket::empty_vec(len), Bucket::empty_vec(len))
}

/// Inserts `key` under `home`, with a partner of the same number under a bucket of its own.
fn insert_linked(key: u32, home: usize, partner_home: usize, keys: &mut Table, values: &mut Table) -> usize {
    let at = insert_one_sided(key, home, keys, values).unwrap();
    let partner_at = insert_one_sided(key, partner_home, values, keys).unwrap();
    point(at, partner_at, keys);
    point(partner_at, at, values);
    at
}

fn place_of(key: u32, table: &Table) -> Option<usize> {
    table.iter().position(|bucket| match &bucket.data {
        Some(entry) => entry.key == key,
        None => false,
    })
}

/// Every key is on record at its home, every record stands for a key, and partners point at each other.
fn assert_in_order(keys: &Table, values: &Table) {
    let len = keys.len();
    for (from, to) in [(keys, values), (values, keys)] {
        for (i, bucket) in from.iter().enumerate() {
            if let Some(entry) = &bucket.data {
                let offset = (len + i - entry.ideal) % len;
                assert!(offset < 8);
                assert_eq!(from[entry.ideal].neighbourhood >> offset & 1, 1);
                let partner = to[entry.pair].data.as_ref().unwrap();
                assert_eq!(partner.pair, i);
                assert_eq!(partner.key, entry.key);
            }
            for offset in 0..8 {
                if bucket.neighbourhood >> offset & 1 == 1 {
                    assert_eq!(from[(i + offset) % len].data.as_ref().unwrap().ideal, i);
                }
            }
        }
    }
}

#[test]
fn empty_vec_is_empty() {
    let table: Table = Bucket::empty_vec(5);
    assert_eq!(table.len(), 5);
    assert!(table.iter().all(|bucket| bucket.data.is_none() && bucket.neighbourhood == 0));
}

#[test]
fn marking_wraps_around() {
    let (mut keys, _) = tables(32);
    mark_as_full(30, 1, &mut keys);
    mark_as_full(30, 30, &mut keys);
    assert_eq!(keys[30].neighbourhood, 0b0000_1001);
    mark_as_empty(30, 1, &mut keys);
    assert_eq!(keys[30].neighbourhood, 0b0000_0001);
    mark_as_empty(30, 1, &mut keys);
    assert_eq!(keys[30].neighbourhood, 0b0000_0001);
}

#[test]
fn settle_and_vacate_undo_each_other() {
    let (mut keys, _) = tables(32);
    settle(bimap::bucket::Entry { key: 9, pair: 4, ideal: 30 }, 1, &mut keys);
    assert_eq!(keys[30].neighbourhood, 0b0000_1000);
    assert_eq!(place_of(9, &keys), Some(1));
    let entry = vacate(1, &mut keys);
    assert_eq!((entry.key, entry.pair, entry.ideal), (9, 4, 30));
    assert_eq!(format!("{:?}", keys), format!("{:?}", tables(32).0));
}

#[test]
fn a_key_goes_to_the_first_free_place() {
    let (mut keys, mut values) = tables(32);
    assert_eq!(insert_linked(100, 31, 0, &mut keys, &mut values), 31);
    assert_eq!(insert_linked(101, 31, 1, &mut keys, &mut values), 0);
    assert_eq!(insert_linked(102, 0, 2, &mut keys, &mut values), 1);
    assert_eq!(insert_linked(103, 31, 3, &mut keys, &mut values), 2);
    assert_eq!(keys[31].neighbourhood, 0b0000_1011);
    assert_eq!(keys[0].neighbourhood, 0b0000_0010);
    assert_in_order(&keys, &values);
}

#[test]
fn a_placed_key_has_no_partner_yet() {
    let (mut keys, mut values) = tables(32);
    assert_eq!(insert_one_sided(7, 3, &mut keys, &mut values), Ok(3));
    let entry = keys[3].data.as_ref().unwrap();
    assert_eq!((entry.key, entry.pair, entry.ideal), (7, usize::MAX, 3));
}

#[test]
fn nothing_else_moves_for_a_near_place() {
    let (mut keys, mut values) = tables(32);
    for i in 0..4 {
        insert_linked(i as u32, 2, 31 - i, &mut keys, &mut values);
    }
    let places: Vec<Option<usize>> = (0..4).map(|key| place_of(key, &keys)).collect();
    let values_before = format!("{:?}", values);
    assert_eq!(insert_one_sided(9, 3, &mut keys, &mut values), Ok(6));
    let places_after: Vec<Option<usize>> = (0..4).map(|key| place_of(key, &keys)).collect();
    assert_eq!(places_after, places);
    assert_eq!(keys[2].neighbourhood, 0b0000_1111);
    assert_eq!(keys[3].neighbourhood, 0b0000_1000);
    assert_eq!(format!("{:?}", values), values_before);
}

#[test]
fn a_near_place_is_taken_beside_a_key_without_partner() {
    let (mut keys, mut values) = tables(32);
    assert_eq!(insert_one_sided(1, 4, &mut keys, &mut values), Ok(4));
    assert_eq!(insert_one_sided(2, 4, &mut keys, &mut values), Ok(5));
    assert_eq!(place_of(1, &keys), Some(4));
    assert_eq!(keys[4].neighbourhood, 0b0000_0011);
}

#[test]
fn a_later_key_makes_room() {
    let (mut keys, mut values) = tables(32);
    for i in 0..7 {
        assert_eq!(insert_linked(i as u32, i, 31 - i, &mut keys, &mut values), i);
    }
    assert_eq!(insert_linked(37, 5, 20, &mut keys, &mut values), 7);
    assert_eq!(insert_linked(32, 0, 19, &mut keys, &mut values), 7);
    assert_eq!(place_of(37, &keys), Some(8));
    assert_eq!(keys[5].neighbourhood, 0b0000_1001);
    assert_eq!(keys[0].neighbourhood, 0b1000_0001);
    assert_in_order(&keys, &values);
}

#[test]
fn a_key_of_the_same_home_does_not_make_room() {
    let (mut keys, mut values) = tables(32);
    for i in 0..7 {
        assert_eq!(insert_linked(i as u32, i, 31 - i, &mut keys, &mut values), i);
    }
    assert_eq!(insert_linked(32, 0, 20, &mut keys, &mut values), 7);
    assert_eq!(insert_linked(64, 0, 19, &mut keys, &mut values), 6);
    assert_eq!(place_of(6, &keys), Some(8));
    assert_in_order(&keys, &values);
}

#[test]
fn keys_make_room_one_after_the_other() {
    let (mut keys, mut values) = tables(32);
    for i in 0..7 {
        insert_linked(i as u32, i, 31 - i, &mut keys, &mut values);
    }
    for i in 0..6 {
        assert_eq!(insert_linked(100 + i as u32, 5, 20 - i, &mut keys, &mut values), 7 + i);
    }
    assert_eq!(insert_linked(32, 0, 14, &mut keys, &mut values), 7);
    assert_eq!(place_of(100, &keys), Some(6));
    assert_eq!(place_of(6, &keys), Some(13));
    assert_in_order(&keys, &values);
}

#[test]
fn a_full_neighbourhood_takes_no_key() {
    let (mut keys, mut values) = tables(32);
    for i in 0..8 {
        assert_eq!(insert_linked(i as u32, 4, 31 - i, &mut keys, &mut values), 4 + i);
    }
    assert_eq!(keys[4].neighbourhood, 0xff);
    let before = format!("{:?} {:?}", keys, values);
    assert_eq!(insert_one_sided(8, 4, &mut keys, &mut values), Err(8));
    assert_eq!(format!("{:?} {:?}", keys, values), before);
}

#[test]
fn a_full_table_takes_no_key() {
    let (mut keys, mut values) = tables(4);
    for i in 0..4 {
        assert_eq!(insert_linked(i as u32, 2, 3, &mut keys, &mut values), (2 + i) % 4);
    }
    let before = format!("{:?} {:?}", keys, values);
    assert_eq!(insert_one_sided(4, 1, &mut keys, &mut values), Err(4));
    assert_eq!(format!("{:?} {:?}", keys, values), before);
}

#[test]
fn nothing_movable_leaves_no_place() {
    let (mut keys, mut values) = tables(32);
    insert_linked(100, 31, 30, &mut keys, &mut values);
    assert_eq!(insert_linked(101, 31, 29, &mut keys, &mut values), 0);
    for i in 0..7 {
        assert_eq!(insert_linked(i as u32, 0, 20 - i, &mut keys, &mut values), 1 + i);
    }
    assert_eq!(keys[0].neighbourhood, 0b1111_1110);
    let before = format!("{:?} {:?}", keys, values);
    assert_eq!(insert_one_sided(7, 0, &mut keys, &mut values), Err(7));
    assert_eq!(format!("{:?} {:?}", keys, values), before);
}

#[test]
fn a_failed_move_is_undone() {
    let (mut keys, mut values) = tables(32);
    for i in 0..6 {
        insert_linked(i as u32, i, 31 - i, &mut keys, &mut values);
    }
    for i in 0..7 {
        assert_eq!(insert_linked(100 + i as u32, 5, 20 - i, &mut keys, &mut values), 6 + i);
    }
    assert_eq!(keys[5].neighbourhood, 0xff);
    let before = format!("{:?} {:?}", keys, values);
    assert_eq!(insert_one_sided(32, 0, &mut keys, &mut values), Err(32));
    assert_eq!(format!("{:?} {:?}", keys, values), before);
    assert_in_order(&keys, &values);
}

#[test]
fn pairs_are_listed_by_the_keys_places() {
    let (mut keys, mut values) = tables(32);
    insert_linked(9, 7, 0, &mut keys, &mut values);
    insert_linked(5, 2, 8, &mut keys, &mut values);
    insert_linked(1, 30, 4, &mut keys, &mut values);
    assert_eq!(borrow_pairs(&keys, &values), vec![(&5, &5), (&9, &9), (&1, &1)]);
    assert_eq!(into_pairs(keys, values), vec![(5, 5), (9, 9), (1, 1)]);
}
