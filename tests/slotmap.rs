use slotmapvec::SlotMapIndex;
use slotmapvec::SlotMapVec;

#[test]
fn it_works() {
    println!("Printing debug test:");
    let mut x = SlotMapVec::new();
    println!("X: {:?}", x);
    x.insert(123213);
    println!("X: {:?}", x);
    let mid = x.insert(34234);
    println!("X: {:?}", x);
    x.insert(654654);
    println!("X: {:?}", x);
    println!("get mid {:?}: {:?}", mid, x.get(mid));
    x.remove(mid);
    println!("X: {:?}", x);
    let ni = x.insert(999);
    println!("X @ {:?}: {:?}", ni, x);
    println!("Printing debug test done.");
}

#[test]
fn size_it() {
    let mut x = SlotMapVec::new();
    let _slot = x.insert(123213);
    let slotsize = std::mem::size_of::<SlotMapIndex>();
    println!("sizeof(SlotMapIndex) == {}", slotsize);

    println!("sizeof(SlotMap<String>) == {}", std::mem::size_of::<SlotMapVec<String>>());
}

#[test]
fn iterator() {
    let mut x = SlotMapVec::new();
    x.insert(9.0);
    x.insert(7.0);
    x.insert(5.0);
    let three = x.insert(3.0);
    x.insert(-3.0);
    let low = x.insert(-8.0);
    x.insert(-6.0);

    let mut it = x.iter_mut();
    while let Some((_, v)) = it.next() {
        *v += 1.0;
    }
    x.remove(three);
    x.insert(3.5);
    x.insert(3.0);
    x.remove(low);
    let mut it = x.iter();
    while let Some(v) = it.next() {
        println!("val: {:?}", v);
    }
}

#[test]
fn doc_example() {
    let mut map = SlotMapVec::new();
    map.insert(123213);
    let idx = map.insert(34234);
    map.insert(654654);
    map.remove(idx);
    let idx2 = map.insert(999);
    assert_eq!(map.get(idx), None);
    assert_eq!(map.get(idx2), Some(&999));
}

#[test]
fn concrete_scenario() {
    let mut map = SlotMapVec::new();
    let h1 = map.insert(10);
    let h2 = map.insert(20);
    let h3 = map.insert(30);
    assert_eq!((h1.slot(), h1.version()), (0, 0));
    assert_eq!((h2.slot(), h2.version()), (1, 0));
    assert_eq!((h3.slot(), h3.version()), (2, 0));
    assert_eq!(map.remove(h2), Some(20));
    assert_eq!(map.get(h2), None);
    let h4 = map.insert(99);
    assert_eq!((h4.slot(), h4.version()), (1, 1));
    assert_eq!(map.get(h1), Some(&10));
    assert_eq!(map.get(h3), Some(&30));
    assert_eq!(map.get(h4), Some(&99));
    assert_eq!(map.len(), 3);
    assert!(!map.contains(h2));
}

#[test]
fn insert_then_get_round_trip() {
    let mut map = SlotMapVec::new();
    for i in 0..20u64 {
        let h = map.insert(i * 7);
        assert_eq!(map.get(h), Some(&(i * 7)));
        assert!(map.contains(h));
    }
    let a = map.insert(1000);
    map.remove(a);
    let b = map.insert(2000);
    assert_eq!(map.get(b), Some(&2000));
}

#[test]
fn removed_handle_is_gone() {
    let mut map = SlotMapVec::new();
    let h = map.insert(String::from("a"));
    let k = map.insert(String::from("b"));
    assert_eq!(map.remove(h), Some(String::from("a")));
    assert_eq!(map.get(h), None);
    assert!(!map.contains(h));
    assert_eq!(map.remove(h), None);
    assert_eq!(map.len(), 1);
    assert_eq!(map.get(k), Some(&String::from("b")));
}

#[test]
fn freed_slots_are_reused_before_growth() {
    let mut map = SlotMapVec::new();
    let mut handles = Vec::new();
    for i in 0..10 {
        handles.push(map.insert(i));
    }
    for h in &handles[2..6] {
        map.remove(*h);
    }
    let mut slots = Vec::new();
    for i in 0..4 {
        let h = map.insert(100 + i);
        assert!(h.slot() < 10);
        slots.push(h.slot());
    }
    slots.sort();
    assert_eq!(slots, vec![2, 3, 4, 5]);
    assert_eq!(map.len(), 10);
    let h = map.insert(500);
    assert_eq!(h.slot(), 10);
    assert_eq!(h.version(), 0);
}

#[test]
fn free_list_is_last_in_first_out() {
    let mut map = SlotMapVec::new();
    let a = map.insert('a');
    let b = map.insert('b');
    let c = map.insert('c');
    map.remove(a);
    map.remove(c);
    assert_eq!(map.insert('x').slot(), 2);
    assert_eq!(map.insert('y').slot(), 0);
    assert_eq!(map.insert('z').slot(), 3);
    assert_eq!(map.get(b), Some(&'b'));
}

#[test]
fn len_counts_valid_handles() {
    let mut map = SlotMapVec::new();
    assert!(map.is_empty());
    let hs: Vec<SlotMapIndex> = (0..8).map(|i| map.insert(i)).collect();
    map.remove(hs[1]);
    map.remove(hs[5]);
    map.remove(hs[5]);
    let n = hs.iter().filter(|h| map.contains(**h)).count();
    assert_eq!(map.len(), n);
    assert_eq!(map.len(), 6);
    assert!(!map.is_empty());
}

#[test]
fn iteration_yields_exactly_the_valid_handles() {
    let mut map = SlotMapVec::new();
    let hs: Vec<SlotMapIndex> = (0..6).map(|i| map.insert(i * 10)).collect();
    map.remove(hs[0]);
    map.remove(hs[3]);
    let mut seen = Vec::new();
    let mut it = map.iter();
    while let Some((h, v)) = it.next() {
        assert!(map.contains(h));
        assert_eq!(map.get(h), Some(v));
        seen.push((h.slot(), *v));
    }
    assert_eq!(seen, vec![(1, 10), (2, 20), (4, 40), (5, 50)]);
    let empty: SlotMapVec<u8> = SlotMapVec::new();
    assert!(empty.iter().next().is_none());
}

#[test]
fn iter_mut_changes_values_in_place() {
    let mut map = SlotMapVec::new();
    for i in 0..3 {
        map.insert(i);
    }
    let mut expected = 0;
    let mut it = map.iter_mut();
    while let Some((_, v)) = it.next() {
        *v *= 2;
        assert_eq!(*v, expected);
        expected += 2;
    }
    let mut it = map.iter();
    let mut values = Vec::new();
    while let Some((_, v)) = it.next() {
        values.push(*v);
    }
    assert_eq!(values, vec![0, 2, 4]);
}

#[test]
fn reuse_gives_a_greater_version() {
    let mut map = SlotMapVec::new();
    let mut h = map.insert(0u32);
    for round in 1..50u32 {
        map.remove(h);
        let next = map.insert(round);
        assert_eq!(next.slot(), h.slot());
        assert!(next.version() > h.version());
        assert_eq!(map.get(h), None);
        assert_eq!(map.get(next), Some(&round));
        h = next;
    }
    assert_eq!(h.version(), 49);
}

#[test]
fn stale_and_out_of_range_handles() {
    let mut big = SlotMapVec::new();
    for i in 0..5 {
        big.insert(i);
    }
    let far = big.insert(5);
    let mut small = SlotMapVec::new();
    small.insert(1);
    assert_eq!(small.get(far), None);
    assert_eq!(small.get_mut(far), None);
    assert!(!small.contains(far));
    assert_eq!(small.remove(far), None);
    assert_eq!(small.len(), 1);
}

#[test]
fn get_mut_and_index_access() {
    let mut map = SlotMapVec::new();
    let h = map.insert(String::from("hello"));
    assert_eq!(map.index(h), "hello");
    map.index_mut(h).push_str(" world");
    assert_eq!(map.get(h).map(|s| s.as_str()), Some("hello world"));
    if let Some(s) = map.get_mut(h) {
        s.clear();
    }
    assert_eq!(map.index(h), "");
    map.remove(h);
    assert!(map.get_mut(h).is_none());
}

#[test]
fn capacity_and_default() {
    let map: SlotMapVec<i64> = SlotMapVec::with_capacity(16);
    assert!(map.capacity() >= 16);
    assert_eq!(map.len(), 0);
    let mut d: SlotMapVec<i64> = SlotMapVec::default();
    assert!(d.is_empty());
    d.insert(3);
    assert!(d.capacity() >= 1);
    let n: SlotMapVec<i64> = SlotMapVec::new();
    assert_eq!(n.capacity(), 0);
}
