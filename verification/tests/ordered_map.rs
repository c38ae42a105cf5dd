use encrypted_notes_backend::identity::Identity;
use encrypted_notes_backend::ordered_map::{Key, OrderedMap};

fn text(s: &str) -> String {
    s.to_string()
}

fn entries(map: &OrderedMap<String, u32>) -> Vec<(String, u32)> {
    (0..map.len())
        .map(|i| {
            let (key, value) = map.slot(i);
            (key.clone(), *value)
        })
        .collect()
}

#[test]
fn a_new_map_is_empty() {
    let map: OrderedMap<String, u32> = OrderedMap::new();
    assert_eq!(map.len(), 0);
    assert!(!map.contains(&text("a")));
    assert_eq!(map.get(&text("a")), None);
    assert_eq!(map.find(&text("a")), None);
}

#[test]
fn insert_appends_or_replaces_in_place() {
    let mut map: OrderedMap<String, u32> = OrderedMap::new();
    map.insert(text("a"), 1);
    map.insert(text("b"), 2);
    map.insert(text("c"), 3);
    map.insert(text("b"), 20);

    assert_eq!(
        entries(&map),
        vec![(text("a"), 1), (text("b"), 20), (text("c"), 3)]
    );
    assert_eq!(map.get(&text("b")), Some(&20));
    assert_eq!(map.find(&text("c")), Some(2));
}

#[test]
fn insert_new_leaves_a_taken_key_alone() {
    let mut map: OrderedMap<String, u32> = OrderedMap::new();
    assert!(map.insert_new(text("a"), 1));
    assert!(!map.insert_new(text("a"), 2));
    assert!(map.insert_new(text("b"), 3));

    assert_eq!(entries(&map), vec![(text("a"), 1), (text("b"), 3)]);
}

#[test]
fn remove_keeps_the_order_of_the_others() {
    let mut map: OrderedMap<String, u32> = OrderedMap::new();
    for (key, value) in [("a", 1), ("b", 2), ("c", 3)] {
        map.insert(text(key), value);
    }

    assert_eq!(map.remove(&text("b")), Some((text("b"), 2)));
    assert_eq!(map.remove(&text("b")), None);

    assert_eq!(entries(&map), vec![(text("a"), 1), (text("c"), 3)]);
    assert!(!map.contains(&text("b")));
    assert!(map.contains(&text("c")));
}

#[test]
fn keys_are_compared_by_what_they_stand_for() {
    assert!(text("a").same_as(&text("a")));
    assert!(!text("a").same_as(&text("A")));
    assert!(!text("a").same_as(&text("ab")));

    let one = Identity::from_slice(&[1]).unwrap();
    let two = Identity::from_slice(&[2]).unwrap();
    assert!(one.same_as(&one));
    assert!(!one.same_as(&two));

    let mut map: OrderedMap<Identity, u32> = OrderedMap::new();
    map.insert(one, 1);
    map.insert(two, 2);
    map.insert(Identity::from_slice(&[1]).unwrap(), 10);
    assert_eq!(map.len(), 2);
    assert_eq!(map.get(&one), Some(&10));
    assert_eq!(map.get(&two), Some(&2));
}
