use rust_algorithms::ordered_dict::OrderedDict;
use rust_algorithms::ordered_dict::order_iter::OrderLinkMap;

fn do_fetch_check(set: &OrderedDict<usize>, key: String, index: usize, v: usize) {
    assert_eq!(set.get(&key).expect("Could not retrieve value from OrderedDict"), &v);

    // The entry at `index` of the iteration order must carry the value.
    let mut iter = set.iter();
    let mut nth = None;
    for _ in 0..(index + 1) {
        nth = iter.next();
    }
    match nth {
        Some((nth_key, _)) => match set.get(&nth_key) {
            Some(value) => assert_eq!(*value, v),
            None => panic!("\"{}\"th element did not match", index),
        },
        None => panic!("\"{}\"th element did not match", index),
    }
}

fn create_default() -> (OrderedDict<usize>, Vec<(String, usize)>) {
    let mut mydict = OrderedDict::new();

    let inserted_items = vec![
        (String::from("Hello world"), 10),
        (String::from("Test string"), 15),
        (String::from("Other test"), 6),
    ];

    for item in inserted_items.iter() {
        mydict.insert(item.0.clone(), item.1);
    }

    (mydict, inserted_items)
}

/// The iterator must hand out exactly `expected`, in order, with a
/// correct `size_hint` before every step.
fn assert_iter_matches(mut iterator: rust_algorithms::ordered_dict::Iter<usize>, expected: &[(String, usize)]) {
    let mut left = expected.len();
    assert_eq!(iterator.size_hint(), (left, Some(left)));
    for should in expected {
        let (k, v) = iterator.next().expect("ERROR: There are more elements in expected than iterator!");
        assert_eq!((&k, &v), (&should.0, &should.1));
        left -= 1;
        assert_eq!(iterator.size_hint(), (left, Some(left)));
    }
    assert!(iterator.next().is_none());
}

fn assert_into_iter_matches(
    mut iterator: rust_algorithms::ordered_dict::IntoIter<usize>,
    expected: &[(String, usize)],
) {
    let mut left = expected.len();
    assert_eq!(iterator.size_hint(), (left, Some(left)));
    for should in expected {
        let (k, v) = iterator.next().expect("ERROR: There are more elements in expected than iterator!");
        assert_eq!((k, v), (should.0.clone(), should.1));
        left -= 1;
        assert_eq!(iterator.size_hint(), (left, Some(left)));
    }
    assert!(iterator.next().is_none());
}

fn assert_keys_match(mut keys: rust_algorithms::ordered_dict::Keys<usize>, expected: &[(String, usize)]) {
    let mut left = expected.len();
    assert_eq!(keys.size_hint(), (left, Some(left)));
    for should in expected {
        let k = keys.next().expect("ERROR: There are more elements in expected than iterator!");
        assert_eq!(k, should.0);
        left -= 1;
        assert_eq!(keys.size_hint(), (left, Some(left)));
    }
    assert!(keys.next().is_none());
}

fn assert_values_match(mut values: rust_algorithms::ordered_dict::Values<usize>, expected: &[(String, usize)]) {
    let mut left = expected.len();
    assert_eq!(values.size_hint(), (left, Some(left)));
    for should in expected {
        let v = values.next().expect("ERROR: There are more elements in expected than iterator!");
        assert_eq!(v, should.1);
        left -= 1;
        assert_eq!(values.size_hint(), (left, Some(left)));
    }
    assert!(values.next().is_none());
}

#[test]
fn iter_values() {
    let (mydict, inserted_items) = create_default();
    assert_values_match(mydict.values(), &inserted_items);
}

#[test]
fn simple_insert() {
    let (mydict, inserted_items) = create_default();

    do_fetch_check(&mydict, String::from("Hello world"), 0, 10);
    do_fetch_check(&mydict, String::from("Other test"), 2, 6);
    do_fetch_check(&mydict, String::from("Test string"), 1, 15);
    do_fetch_check(&mydict, String::from("Other test"), 2, 6);

    assert_keys_match(mydict.keys(), &inserted_items);
}

#[test]
fn simple_remove() {
    let (mut mydict, mut inserted_items) = create_default();
    let remove_key = String::from("Hello world");
    mydict.remove(&remove_key);
    inserted_items.retain(|&(ref k, _v)| k != &remove_key);
    assert_iter_matches(mydict.iter(), &inserted_items);
}

#[test]
fn retain() {
    let (mut mydict, mut inserted_items) = create_default();
    fn check_key(k: &String) -> bool {
        match k.chars().next() {
            Some(x) => x == 'O',
            None => false,
        }
    }

    mydict.retain(|k, _v| check_key(k));
    inserted_items.retain(|&(ref k, _v)| check_key(k));

    assert_keys_match(mydict.keys(), &inserted_items);
}

#[test]
fn iter_ref() {
    let (mydict, inserted_items) = create_default();
    assert_iter_matches(mydict.iter(), &inserted_items);
}

#[test]
fn into_iter() {
    let (mydict, inserted_items) = create_default();
    assert_into_iter_matches(mydict.into_iter(), &inserted_items);
}

#[test]
fn into_iter_ref() {
    let (mydict, inserted_items) = create_default();
    // A walk over a borrowed dictionary is the plain entry walk.
    assert_iter_matches(mydict.iter(), &inserted_items);
}

#[test]
#[should_panic(expected = "Could not retrieve value from OrderedDict")]
fn can_see_missing() {
    let mut mydict = OrderedDict::new();
    mydict.insert(String::from("Other test"), 6);
    do_fetch_check(&mydict, String::from("Other tst"), 2, 6);
}

#[test]
#[should_panic(expected = "assertion `left == right` failed")]
fn can_see_false() {
    let mut mydict = OrderedDict::new();
    mydict.insert(String::from("Other test"), 6);
    do_fetch_check(&mydict, String::from("Other test"), 2, 7);
}

#[test]
fn iterate_order_link_map() {
    let (mydict, inserted_items) = create_default();
    let mut order = mydict.order_link_map().iter();
    for should in &inserted_items {
        let k = order.next().expect("ERROR: There are more elements in expected than iterator!");
        assert_eq!(k, should.0);
    }
    assert!(order.next().is_none());
}

#[test]
fn create_and_check() {
    let mut mydict = OrderedDict::new();
    mydict.insert(String::from("Hello world"), 10);
    mydict.insert(String::from("Test string"), 15);
    mydict.insert(String::from("Other test"), 6);
    let mut iter = mydict.iter();
    while let Some(item) = iter.next() {
        println!("{:?}", item);
    }
}

#[test]
fn insert_existing_key_replaces_in_place() {
    let (mut mydict, _) = create_default();
    let old = mydict.insert(String::from("Test string"), 99);
    assert_eq!(old, Some(15));
    assert_eq!(mydict.len(), 3);
    let expected = vec![
        (String::from("Hello world"), 10),
        (String::from("Test string"), 99),
        (String::from("Other test"), 6),
    ];
    assert_iter_matches(mydict.iter(), &expected);
}

#[test]
fn remove_missing_key_changes_nothing() {
    let (mut mydict, inserted_items) = create_default();
    assert_eq!(mydict.remove(&String::from("absent")), None);
    assert_eq!(mydict.len(), 3);
    assert_iter_matches(mydict.iter(), &inserted_items);
}

#[test]
fn clear_empties_the_dictionary() {
    let (mut mydict, _) = create_default();
    assert!(!mydict.is_empty());
    mydict.clear();
    assert!(mydict.is_empty());
    assert_eq!(mydict.len(), 0);
    assert!(!mydict.contains_key(&String::from("Hello world")));
}

#[test]
fn order_link_map_neighbours() {
    let mut map = OrderLinkMap::new();
    map.insert(String::from("a"));
    map.insert(String::from("b"));
    map.insert(String::from("c"));
    map.insert(String::from("b"));
    assert_eq!(map.len(), 3);

    let link = map.get(&String::from("b")).expect("recorded key");
    let removed = map.remove(&String::from("b")).expect("recorded key");
    assert_eq!(link, removed);
    assert_eq!(map.len(), 2);
    assert!(map.get(&String::from("b")).is_none());
    assert!(map.remove(&String::from("b")).is_none());

    let mut it = map.iter();
    assert_eq!(it.next().as_deref(), Some("a"));
    assert_eq!(it.next().as_deref(), Some("c"));
    assert!(it.next().is_none());

    let mut into = map.into_iter();
    assert_eq!(into.size_hint(), (2, Some(2)));
    assert_eq!(into.next().as_deref(), Some("a"));
    assert_eq!(into.next().as_deref(), Some("c"));
    assert!(into.next().is_none());
}

#[test]
fn get_mut_rewrites_one_value() {
    let (mut mydict, _) = create_default();
    match mydict.get_mut(&String::from("Test string")) {
        Some(v) => {
            assert_eq!(*v, 15);
            *v = 42;
        }
        None => panic!("key is present"),
    }
    assert!(mydict.get_mut(&String::from("absent")).is_none());
    let expected = vec![
        (String::from("Hello world"), 10),
        (String::from("Test string"), 42),
        (String::from("Other test"), 6),
    ];
    assert_iter_matches(mydict.iter(), &expected);
}

#[test]
fn iter_mut() {
    let (mut mydict, mut inserted_items) = create_default();
    {
        let (keys, values) = mydict.iter_mut();
        assert_eq!(keys.len(), values.len());
        for (i, should) in inserted_items.iter().enumerate() {
            assert_eq!(keys[i], should.0);
            assert_eq!(values[i], should.1);
        }
    }

    // Just check that we can change the items.
    let mut new_value = 10;
    {
        let (_, values) = mydict.iter_mut();
        for (value, should_store) in values.iter_mut().zip(inserted_items.iter_mut()) {
            *value = new_value;
            should_store.1 = new_value;
            new_value += 1;
        }
    }
    assert_iter_matches(mydict.iter(), &inserted_items);
}

#[test]
fn iterate_mutable_values() {
    // Check that the values can be changed through values_mut().
    let (mut mydict, mut inserted_items) = create_default();

    for (value, should) in mydict.values_mut().iter().zip(inserted_items.iter()) {
        assert_eq!(*value, should.1);
    }

    // Just check that we can change the items.
    let mut new_value = 10;
    for (value, should_store) in mydict.values_mut().iter_mut().zip(inserted_items.iter_mut()) {
        *value = new_value;
        should_store.1 = new_value;
        new_value += 1;
    }
    assert_iter_matches(mydict.iter(), &inserted_items);
}
