use bucket_map::{HashKey, HashMap};

fn count_entries<K: HashKey, V>(map: &HashMap<K, V>) -> usize {
    let mut it = map.iter();
    let mut n = 0;
    while it.next().is_some() {
        n += 1;
    }
    n
}

#[test]
fn lib_insert() {
    let mut map = HashMap::new();
    assert_eq!(map.len(), 0);
    assert!(map.is_empty());
    map.insert("foo", 322);
    assert_eq!(map.len(), 1);
    assert!(!map.is_empty());
    assert_eq!(map.get(&"foo"), Some(&322));
    assert_eq!(map.remove(&"foo"), Some(322));
    assert_eq!(map.len(), 0);
    assert!(map.is_empty());
    assert_eq!(map.get(&"foo"), None);
}

#[test]
fn main_insert() {
    let mut map = HashMap::new();
    assert_eq!(map.len(), 0);
    assert!(map.is_empty());
    map.insert("foo", 322);
    assert_eq!(map.len(), 1);
    assert!(!map.is_empty());
    assert_eq!(map.get(&"foo"), Some(&322));
    assert_eq!(map.remove(&"foo"), Some(322));
    assert_eq!(map.len(), 0);
    assert!(map.is_empty());
    assert_eq!(map.get(&"foo"), None);
}

#[test]
fn iter() {
    let mut map = HashMap::new();
    map.insert("zulul", 322);
    map.insert("peepo", 2);
    map.insert("kek", 3);
    map.insert("butter", 4);
    let mut it = map.iter();
    while let Some((&k, &v)) = it.next() {
        match k {
            "zulul" => assert_eq!(v, 322),
            "peepo" => assert_eq!(v, 2),
            "kek" => assert_eq!(v, 3),
            "butter" => assert_eq!(v, 4),
            _ => unreachable!(),
        }
    }

    assert_eq!(count_entries(&map), 4);
}

#[test]
fn insert_then_get_round_trip() {
    let mut map = HashMap::new();
    assert_eq!(map.insert("alpha", 7), None);
    assert_eq!(map.get(&"alpha"), Some(&7));
    assert!(map.contains_key(&"alpha"));
    assert!(!map.contains_key(&"beta"));
}

#[test]
fn replacing_returns_first_value() {
    let mut map = HashMap::new();
    assert_eq!(map.insert("k", 1), None);
    assert_eq!(map.insert("k", 2), Some(1));
    assert_eq!(map.get(&"k"), Some(&2));
    assert_eq!(map.len(), 1);
    assert_eq!(count_entries(&map), 1);
}

#[test]
fn removing_absent_key_changes_nothing() {
    let mut map = HashMap::new();
    map.insert("a", 1);
    map.insert("b", 2);
    assert_eq!(map.remove(&"c"), None);
    assert_eq!(map.len(), 2);
    assert_eq!(map.get(&"a"), Some(&1));
    assert_eq!(map.get(&"b"), Some(&2));
}

#[test]
fn lookups_on_fresh_map_find_nothing() {
    let mut map: HashMap<&str, i32> = HashMap::new();
    assert_eq!(map.get(&"x"), None);
    assert!(!map.contains_key(&"x"));
    assert_eq!(map.remove(&"x"), None);
    assert_eq!(map.len(), 0);
    assert_eq!(map.bucket_count(), 0);
}

#[test]
fn distinct_inserts_count() {
    let keys = ["a", "b", "c", "d", "e", "f", "g", "h", "i", "j", "k", "l", "m"];
    let mut map = HashMap::new();
    for (i, k) in keys.iter().enumerate() {
        assert_eq!(map.insert(*k, i), None);
        assert_eq!(map.len(), i + 1);
    }
    for (i, k) in keys.iter().enumerate() {
        assert_eq!(map.get(k), Some(&i));
    }
    assert_eq!(count_entries(&map), keys.len());
}

#[test]
fn bucket_array_grows_past_three_quarters() {
    let mut map = HashMap::new();
    assert_eq!(map.bucket_count(), 0);
    map.insert("one", 1);
    assert_eq!(map.bucket_count(), 1);
    map.insert("two", 2);
    assert_eq!(map.bucket_count(), 2);
    map.insert("three", 3);
    assert_eq!(map.bucket_count(), 4);
    map.insert("four", 4);
    assert_eq!(map.bucket_count(), 4);
    map.insert("five", 5);
    assert_eq!(map.bucket_count(), 8);
    for (k, v) in [("one", 1), ("two", 2), ("three", 3), ("four", 4), ("five", 5)] {
        assert_eq!(map.get(&k), Some(&v));
    }
}

#[test]
fn replacing_does_not_grow_count_or_buckets_needlessly() {
    let mut map = HashMap::new();
    map.insert("x", 1);
    map.insert("x", 2);
    map.insert("x", 3);
    assert_eq!(map.len(), 1);
    assert_eq!(map.get(&"x"), Some(&3));
}

#[test]
fn iterating_empty_map_yields_nothing() {
    let map: HashMap<&str, u8> = HashMap::new();
    let mut it = map.iter();
    assert!(it.next().is_none());
    assert!(it.next().is_none());
}

#[test]
fn iteration_covers_every_pair_once() {
    let mut map = HashMap::new();
    let pairs = [("zulul", 322), ("peepo", 2), ("kek", 3), ("butter", 4)];
    for (k, v) in pairs {
        map.insert(k, v);
    }
    let mut seen = Vec::new();
    let mut it = map.iter();
    while let Some((k, v)) = it.next() {
        seen.push((*k, *v));
    }
    assert_eq!(seen.len(), 4);
    for p in pairs {
        assert_eq!(seen.iter().filter(|q| **q == p).count(), 1);
    }
}

#[test]
fn iteration_after_removal() {
    let mut map = HashMap::new();
    for (i, k) in ["p", "q", "r", "s", "t"].iter().enumerate() {
        map.insert(*k, i);
    }
    assert_eq!(map.remove(&"r"), Some(2));
    let mut seen = Vec::new();
    let mut it = map.iter();
    while let Some((k, _)) = it.next() {
        seen.push(*k);
    }
    seen.sort();
    assert_eq!(seen, vec!["p", "q", "s", "t"]);
}

#[test]
fn empty_again_after_removing_everything() {
    let mut map = HashMap::new();
    assert!(map.is_empty());
    map.insert("a", 1);
    map.insert("b", 2);
    map.insert("c", 3);
    assert!(!map.is_empty());
    assert_eq!(map.remove(&"b"), Some(2));
    assert!(!map.is_empty());
    assert_eq!(map.remove(&"a"), Some(1));
    assert_eq!(map.remove(&"c"), Some(3));
    assert!(map.is_empty());
    assert_eq!(map.len(), 0);
    assert_eq!(count_entries(&map), 0);
}

#[test]
fn string_keys() {
    let mut map = HashMap::new();
    map.insert(String::from("héllo"), 1);
    map.insert(String::from("hello"), 2);
    assert_eq!(map.get(&String::from("héllo")), Some(&1));
    assert_eq!(map.get(&String::from("hello")), Some(&2));
    assert_eq!(map.get(&String::from("hell")), None);
    assert_eq!(map.len(), 2);
}

#[test]
fn key_equality_and_hash() {
    let a = "same";
    let b = String::from("same");
    let c = "other";
    assert!(a.same_key(&"same"));
    assert!(!a.same_key(&c));
    assert!(!"ab".same_key(&"abc"));
    assert_eq!(a.hash_code(), b.hash_code());
    assert_eq!(a.hash_code(), "same".hash_code());
    assert_ne!(a.hash_code(), c.hash_code());
}

#[test]
fn integer_keys() {
    let mut map = HashMap::new();
    for k in 0u64..100 {
        assert_eq!(map.insert(k * 7, k), None);
    }
    assert_eq!(map.len(), 100);
    assert_eq!(map.bucket_count(), 256);
    assert_eq!(map.get(&21), Some(&3));
    assert_eq!(map.get(&22), None);
    for k in 0u64..50 {
        assert_eq!(map.remove(&(k * 7)), Some(k));
    }
    assert_eq!(map.len(), 50);
    assert_eq!(map.bucket_count(), 256);
    assert_eq!(count_entries(&map), 50);
    assert!(7u64.same_key(&7));
    assert!(!7u64.same_key(&8));
}
