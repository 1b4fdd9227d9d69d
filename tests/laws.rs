use hashmap::HashMap;

fn collect<'a>(map: &'a HashMap<String, u32>) -> Vec<(String, u32)> {
    let mut out = Vec::new();
    let mut it = map.iter();
    while let Some((k, v)) = it.next() {
        out.push((k.clone(), *v));
    }
    out
}

#[test]
fn distinct_inserts_count() {
    let mut map = HashMap::new();
    for i in 0..50u32 {
        assert_eq!(map.insert(format!("key{}", i), i), None);
        assert_eq!(map.len(), (i + 1) as usize);
    }
}

#[test]
fn second_insert_returns_first_value() {
    let mut map = HashMap::new();
    assert_eq!(map.insert("k", 1), None);
    let before = map.len();
    assert_eq!(map.insert("k", 2), Some(1));
    assert_eq!(map.get(&"k"), Some(&2));
    assert_eq!(map.len(), before);
}

#[test]
fn remove_after_insert() {
    let mut map = HashMap::new();
    map.insert("a", 10);
    map.insert("b", 20);
    assert_eq!(map.len(), 2);
    assert_eq!(map.remove(&"a"), Some(10));
    assert_eq!(map.get(&"a"), None);
    assert_eq!(map.len(), 1);
    assert_eq!(map.remove(&"a"), None);
    assert_eq!(map.len(), 1);
    assert_eq!(map.get(&"b"), Some(&20));
}

#[test]
fn empty_table_operations() {
    let mut map: HashMap<&str, u8> = HashMap::new();
    assert_eq!(map.get(&"x"), None);
    assert!(!map.contains_key(&"x"));
    assert_eq!(map.remove(&"x"), None);
    assert!(map.is_empty());
    assert!(map.iter().next().is_none());
}

#[test]
fn iteration_round_trip() {
    let mut map = HashMap::new();
    let n = 37u32;
    for i in 0..n {
        map.insert(format!("k{}", i), i * 3);
    }
    let mut seen = collect(&map);
    assert_eq!(seen.len(), n as usize);
    seen.sort();
    let mut expected: Vec<(String, u32)> = (0..n).map(|i| (format!("k{}", i), i * 3)).collect();
    expected.sort();
    assert_eq!(seen, expected);
}

#[test]
fn growth_keeps_associations() {
    let mut map = HashMap::new();
    for i in 0..200u32 {
        map.insert(format!("g{}", i), i);
        for j in 0..=i {
            assert_eq!(map.get(format!("g{}", j).as_str()), Some(&j));
        }
    }
    assert_eq!(map.len(), 200);
}

#[test]
fn example_four_keys() {
    let mut map = HashMap::new();
    map.insert("foo", 42);
    map.insert("bar", 43);
    map.insert("baz", 44);
    map.insert("quo", 45);
    assert_eq!(map.len(), 4);
    let mut pairs = Vec::new();
    let mut it = map.iter();
    while let Some((&k, &v)) = it.next() {
        pairs.push((k, v));
    }
    pairs.sort();
    assert_eq!(pairs, vec![("bar", 43), ("baz", 44), ("foo", 42), ("quo", 45)]);
    assert_eq!(map.get(&"foo"), Some(&42));
    assert_eq!(map.remove(&"foo"), Some(42));
    assert_eq!(map.get(&"foo"), None);
    assert_eq!(map.len(), 3);
}

#[test]
fn owned_keys_looked_up_by_slice_and_by_owned() {
    let mut map = HashMap::new();
    map.insert(String::from("alpha"), 1u32);
    map.insert(String::from("beta"), 2u32);
    assert_eq!(map.get("alpha"), Some(&1));
    assert_eq!(map.get(&String::from("beta")), Some(&2));
    assert!(map.contains_key("beta"));
    assert!(!map.contains_key("gamma"));
    assert_eq!(map.remove(&String::from("alpha")), Some(1));
    assert!(!map.contains_key("alpha"));
    assert_eq!(map.len(), 1);
}

#[test]
fn update_keeps_single_entry() {
    let mut map = HashMap::new();
    map.insert(String::from("x"), 1u32);
    map.insert(String::from("x"), 5u32);
    assert_eq!(collect(&map), vec![(String::from("x"), 5)]);
}

#[test]
fn keys_differing_in_one_byte_are_distinct() {
    let mut map = HashMap::new();
    map.insert("ab", 1);
    map.insert("ac", 2);
    map.insert("a", 3);
    map.insert("", 4);
    map.insert("é", 5);
    assert_eq!(map.len(), 5);
    assert_eq!(map.get(&"ab"), Some(&1));
    assert_eq!(map.get(&"ac"), Some(&2));
    assert_eq!(map.get(&"a"), Some(&3));
    assert_eq!(map.get(&""), Some(&4));
    assert_eq!(map.get(&"é"), Some(&5));
    assert_eq!(map.get(&"e"), None);
}

#[test]
fn remove_everything_then_reinsert() {
    let mut map = HashMap::new();
    for i in 0..20u32 {
        map.insert(format!("r{}", i), i);
    }
    for i in 0..20u32 {
        assert_eq!(map.remove(format!("r{}", i).as_str()), Some(i));
    }
    assert!(map.is_empty());
    assert!(map.iter().next().is_none());
    map.insert(String::from("r3"), 99);
    assert_eq!(map.get("r3"), Some(&99));
    assert_eq!(map.len(), 1);
}

#[test]
fn integer_keys() {
    let mut map: HashMap<u64, u64> = HashMap::new();
    let keys = [0u64, 1, 2, 255, 256, 1 << 32, u64::MAX, u64::MAX - 1];
    for (i, k) in keys.iter().enumerate() {
        assert_eq!(map.insert(*k, i as u64), None);
    }
    assert_eq!(map.len(), keys.len());
    for (i, k) in keys.iter().enumerate() {
        assert_eq!(map.get(k), Some(&(i as u64)));
    }
    assert_eq!(map.insert(u64::MAX, 7), Some(6));
    assert_eq!(map.remove(&0), Some(0));
    assert_eq!(map.get(&0), None);
    assert!(!map.contains_key(&3));
    assert_eq!(map.len(), keys.len() - 1);
}

#[test]
fn many_integer_keys_survive_growth() {
    let mut map: HashMap<u64, u64> = HashMap::new();
    for k in 0..1000u64 {
        map.insert(k * 7919, k);
    }
    assert_eq!(map.len(), 1000);
    for k in 0..1000u64 {
        assert_eq!(map.get(&(k * 7919)), Some(&k));
    }
    let mut count = 0;
    let mut it = map.iter();
    while let Some((k, v)) = it.next() {
        assert_eq!(*k, *v * 7919);
        count += 1;
    }
    assert_eq!(count, 1000);
}
