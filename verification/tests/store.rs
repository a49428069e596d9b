use ecosim::geometry::Position;
use ecosim::store::Handle;
use ecosim::store::Pose;
use ecosim::store::Store;

fn at(x: i64, y: i64) -> Pose {
    Pose::at(Position::new(x, y))
}

#[test]
fn new_store_is_empty() {
    let s: Store<u8> = Store::new();
    assert_eq!(s.len(), 0);
    assert!(s.is_empty());
    assert!(s.entries().is_empty());
    assert_eq!(s.find(Handle { id: 0 }), None);
    assert!(s.get(Handle { id: 0 }).is_none());
}

#[test]
fn insert_hands_out_handles_in_order() {
    let mut s: Store<u8> = Store::new();
    assert_eq!(s.insert(at(1, 1), 10), Some(Handle { id: 0 }));
    assert_eq!(s.insert(at(2, 2), 20), Some(Handle { id: 1 }));
    assert_eq!(s.insert(at(3, 3), 30), Some(Handle { id: 2 }));
    assert_eq!(s.len(), 3);
    assert!(!s.is_empty());
    let e = s.get(Handle { id: 1 }).unwrap();
    assert_eq!(e.handle, Handle { id: 1 });
    assert_eq!(e.pose, at(2, 2));
    assert_eq!(e.item, 20);
    assert_eq!(s.entry(2).item, 30);
    assert_eq!(s.find(Handle { id: 2 }), Some(2));
    assert!(s.contains(Handle { id: 0 }));
    assert!(!s.contains(Handle { id: 3 }));
}

#[test]
fn entries_come_in_insertion_order() {
    let mut s: Store<u8> = Store::new();
    for k in 0..5u8 {
        s.insert(at(k as i64, 0), k);
    }
    let items: Vec<u8> = s.entries().iter().map(|e| e.item).collect();
    assert_eq!(items, vec![0, 1, 2, 3, 4]);
    let ids: Vec<u64> = s.entries().iter().map(|e| e.handle.id).collect();
    assert_eq!(ids, vec![0, 1, 2, 3, 4]);
}

#[test]
fn remove_takes_one_entry_out_and_keeps_the_order() {
    let mut s: Store<u8> = Store::new();
    for k in 0..5u8 {
        s.insert(at(k as i64, 0), k);
    }
    let gone = s.remove(Handle { id: 2 }).unwrap();
    assert_eq!(gone.item, 2);
    assert_eq!(gone.handle, Handle { id: 2 });
    assert_eq!(s.len(), 4);
    assert!(!s.contains(Handle { id: 2 }));
    let ids: Vec<u64> = s.entries().iter().map(|e| e.handle.id).collect();
    assert_eq!(ids, vec![0, 1, 3, 4]);
    assert_eq!(s.find(Handle { id: 3 }), Some(2));
    assert_eq!(s.find(Handle { id: 4 }), Some(3));
    assert_eq!(s.find(Handle { id: 0 }), Some(0));
}

#[test]
fn remove_of_a_missing_handle_changes_nothing() {
    let mut s: Store<u8> = Store::new();
    s.insert(at(0, 0), 1);
    assert!(s.remove(Handle { id: 7 }).is_none());
    assert_eq!(s.len(), 1);
    assert!(s.remove(Handle { id: 0 }).is_some());
    assert!(s.remove(Handle { id: 0 }).is_none());
    assert_eq!(s.len(), 0);
}

#[test]
fn handles_are_not_issued_twice() {
    let mut s: Store<u8> = Store::new();
    let a = s.insert(at(0, 0), 1).unwrap();
    s.remove(a);
    let b = s.insert(at(0, 0), 2).unwrap();
    assert_ne!(a, b);
    assert_eq!(b, Handle { id: 1 });
    assert!(s.get(a).is_none());
    assert_eq!(s.get(b).unwrap().item, 2);
}

#[test]
fn remove_at_takes_the_entry_at_the_index() {
    let mut s: Store<u8> = Store::new();
    for k in 0..3u8 {
        s.insert(at(k as i64, 0), k);
    }
    let e = s.remove_at(0);
    assert_eq!(e.item, 0);
    assert_eq!(s.entry(0).item, 1);
    assert_eq!(s.entry(1).item, 2);
}

#[test]
fn update_keeps_the_handle() {
    let mut s: Store<u8> = Store::new();
    s.insert(at(0, 0), 1);
    s.insert(at(1, 1), 2);
    s.update(1, at(9, 9), 77);
    let e = s.get(Handle { id: 1 }).unwrap();
    assert_eq!(e.pose, at(9, 9));
    assert_eq!(e.item, 77);
    assert_eq!(s.entry(0).item, 1);
    assert_eq!(s.len(), 2);
}

#[test]
fn insert_each_adds_behind_the_others() {
    let mut s: Store<u8> = Store::new();
    s.insert(at(0, 0), 1);
    s.insert_each(&vec![at(1, 0), at(2, 0)], 5);
    assert_eq!(s.len(), 3);
    assert_eq!(s.entry(1).handle, Handle { id: 1 });
    assert_eq!(s.entry(1).pose, at(1, 0));
    assert_eq!(s.entry(1).item, 5);
    assert_eq!(s.entry(2).handle, Handle { id: 2 });
    assert_eq!(s.entry(2).pose, at(2, 0));
    s.insert_each(&Vec::new(), 6);
    assert_eq!(s.len(), 3);
}

#[test]
fn nearest_within_picks_the_least_distance() {
    let mut s: Store<u8> = Store::new();
    let far = s.insert(at(10, 0), 0).unwrap();
    let near = s.insert(at(0, 3), 0).unwrap();
    let mid = s.insert(at(-5, 0), 0).unwrap();
    let o = Position::origin();
    assert_eq!(s.nearest_within(&o, 100), Some(near));
    s.remove(near);
    assert_eq!(s.nearest_within(&o, 100), Some(mid));
    s.remove(mid);
    assert_eq!(s.nearest_within(&o, 100), Some(far));
    s.remove(far);
    assert_eq!(s.nearest_within(&o, 100), None);
}

#[test]
fn nearest_within_leaves_out_what_is_too_far() {
    let mut s: Store<u8> = Store::new();
    let h = s.insert(at(3, 4), 0).unwrap();
    let o = Position::origin();
    assert_eq!(s.nearest_within(&o, 4), None);
    assert_eq!(s.nearest_within(&o, 5), Some(h));
    assert_eq!(s.nearest_within(&o, 0), None);
    assert_eq!(s.nearest_within(&Position::new(3, 4), 0), Some(h));
}

#[test]
fn nearest_within_takes_the_first_among_equals() {
    let mut s: Store<u8> = Store::new();
    let east = s.insert(at(5, 0), 0).unwrap();
    let west = s.insert(at(-5, 0), 0).unwrap();
    let north = s.insert(at(0, 5), 0).unwrap();
    let o = Position::origin();
    assert_eq!(s.nearest_within(&o, 10), Some(east));
    s.remove(east);
    assert_eq!(s.nearest_within(&o, 10), Some(west));
    s.remove(west);
    assert_eq!(s.nearest_within(&o, 10), Some(north));
}

#[test]
fn find_searches_a_store_with_gaps() {
    let mut s: Store<u8> = Store::new();
    for k in 0..100u8 {
        s.insert(at(k as i64, 0), k);
    }
    for k in 0..100u64 {
        if k % 3 != 0 {
            s.remove(Handle { id: k });
        }
    }
    assert_eq!(s.len(), 34);
    for k in 0..100u64 {
        let found = s.find(Handle { id: k });
        if k % 3 == 0 {
            assert_eq!(found, Some((k / 3) as usize));
            assert_eq!(s.get(Handle { id: k }).unwrap().item as u64, k);
        } else {
            assert_eq!(found, None);
        }
    }
    assert_eq!(s.find(Handle { id: u64::MAX }), None);
}

#[test]
fn nearest_within_agrees_with_a_plain_search() {
    let mut s: Store<u8> = Store::new();
    let mut seed: u64 = 99;
    let mut next = |span: i64| -> i64 {
        seed = seed.wrapping_mul(6364136223846793005).wrapping_add(1442695040888963407);
        ((seed >> 33) as i64) % span
    };
    for _ in 0..300 {
        s.insert(at(next(2_000) - 1_000, next(2_000) - 1_000), 0);
    }
    for _ in 0..100 {
        let p = Position::new(next(2_400) - 1_200, next(2_400) - 1_200);
        let radius = next(600) as u32;
        let mut best: Option<(u64, Handle)> = None;
        for e in s.entries().iter() {
            let d = e.pose.position.distance_squared(&p);
            if d <= (radius as u64) * (radius as u64) && best.map_or(true, |(b, _)| d < b) {
                best = Some((d, e.handle));
            }
        }
        assert_eq!(s.nearest_within(&p, radius), best.map(|(_, h)| h));
    }
}
