use hashmap::HashMap;

#[test]
fn insert() {
    let mut map = HashMap::new();

    assert!(map.is_empty());
    assert_eq!(map.len(), 0);

    map.insert("foo", 42);

    assert!(!map.is_empty());
    assert_eq!(map.len(), 1);

    assert_eq!(map.get(&"foo"), Some(&42));
    assert_eq!(map.remove(&"foo"), Some(42));
    assert_eq!(map.get(&"foo"), None);

    assert!(map.is_empty());
    assert_eq!(map.len(), 0);
}

#[test]
fn iter() {
    let mut map = HashMap::new();
    map.insert("foo", 42);
    map.insert("bar", 43);
    map.insert("baz", 44);
    map.insert("quo", 45);
    let mut it = map.iter();
    while let Some((&k, &v)) = it.next() {
        match k {
            "foo" => assert_eq!(v, 42),
            "bar" => assert_eq!(v, 43),
            "baz" => assert_eq!(v, 44),
            "quo" => assert_eq!(v, 45),
            _ => unreachable!(),
        }
    }
    let mut count = 0;
    let mut it = map.iter();
    while it.next().is_some() {
        count += 1;
    }
    assert_eq!(count, 4);
}

#[test]
fn empty_hashmap() {
    let mut map = HashMap::<String, String>::new();
    assert_eq!(map.get("key"), None);
    assert_eq!(map.contains_key("key"), false);
    assert_eq!(map.remove("key"), None);
}
