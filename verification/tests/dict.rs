use std::collections::{BTreeMap, HashMap};
use pybridge::conversion::ToPyObject;
use pybridge::dict::PyDict;
use pybridge::err::PyErr;
use pybridge::list::PyTuple;
use pybridge::runtime::{ExcKind, Kind, Python};

#[test]
fn test_new() {
    let mut py = Python::acquire();
    let dict = PyDict::new(&mut py);
    dict.set_item(&mut py, 7, 32).unwrap();
    assert_eq!(
        32,
        dict.get_item(&mut py, 7i32).unwrap().unwrap().extract::<i32>(&py).unwrap()
    );
    assert_eq!(None, dict.get_item(&mut py, 8i32).unwrap());
}

#[test]
fn test_copy() {
    let mut py = Python::acquire();
    let dict = PyDict::new(&mut py);
    dict.set_item(&mut py, 7, 32).unwrap();

    let ndict = dict.copy(&mut py).unwrap();
    assert_eq!(
        32,
        ndict.get_item(&mut py, 7i32).unwrap().unwrap().extract::<i32>(&py).unwrap()
    );
    assert_eq!(None, ndict.get_item(&mut py, 8i32).unwrap());
}

#[test]
fn test_len() {
    let mut py = Python::acquire();
    let mut v = HashMap::new();
    let ob = v.to_object(&mut py);
    let dict = PyDict::downcast_from(&py, ob).unwrap();
    assert_eq!(0, dict.len(&py));
    v.insert(7, 32);
    let ob = v.to_object(&mut py);
    let dict2 = PyDict::downcast_from(&py, ob).unwrap();
    assert_eq!(1, dict2.len(&py));
}

#[test]
fn test_contains() {
    let mut py = Python::acquire();
    let mut v = HashMap::new();
    v.insert(7, 32);
    let ob = v.to_object(&mut py);
    let dict = PyDict::downcast_from(&py, ob).unwrap();
    assert_eq!(true, dict.contains(&mut py, 7i32).unwrap());
    assert_eq!(false, dict.contains(&mut py, 8i32).unwrap());
}

#[test]
fn test_get_item() {
    let mut py = Python::acquire();
    let mut v = HashMap::new();
    v.insert(7, 32);
    let ob = v.to_object(&mut py);
    let dict = PyDict::downcast_from(&py, ob).unwrap();
    assert_eq!(
        32,
        dict.get_item(&mut py, 7i32).unwrap().unwrap().extract::<i32>(&py).unwrap()
    );
    assert_eq!(None, dict.get_item(&mut py, 8i32).unwrap());
}

#[test]
fn test_set_item() {
    let mut py = Python::acquire();
    let mut v = HashMap::new();
    v.insert(7, 32);
    let ob = v.to_object(&mut py);
    let dict = PyDict::downcast_from(&py, ob).unwrap();
    assert!(dict.set_item(&mut py, 7i32, 42i32).is_ok()); // change
    assert!(dict.set_item(&mut py, 8i32, 123i32).is_ok()); // insert
    assert_eq!(
        42i32,
        dict.get_item(&mut py, 7i32).unwrap().unwrap().extract::<i32>(&py).unwrap()
    );
    assert_eq!(
        123i32,
        dict.get_item(&mut py, 8i32).unwrap().unwrap().extract::<i32>(&py).unwrap()
    );
}

#[test]
fn test_set_item_does_not_update_original_object() {
    let mut py = Python::acquire();
    let mut v = HashMap::new();
    v.insert(7, 32);
    let ob = v.to_object(&mut py);
    let dict = PyDict::downcast_from(&py, ob).unwrap();
    assert!(dict.set_item(&mut py, 7i32, 42i32).is_ok()); // change
    assert!(dict.set_item(&mut py, 8i32, 123i32).is_ok()); // insert
    assert_eq!(32i32, *v.get(&7i32).unwrap()); // not updated!
    assert_eq!(None, v.get(&8i32));
}

#[test]
fn test_del_item() {
    let mut py = Python::acquire();
    let mut v = HashMap::new();
    v.insert(7, 32);
    let ob = v.to_object(&mut py);
    let dict = PyDict::downcast_from(&py, ob).unwrap();
    assert!(dict.del_item(&mut py, 7i32).is_ok());
    assert_eq!(0, dict.len(&py));
    assert_eq!(None, dict.get_item(&mut py, 7i32).unwrap());
}

#[test]
fn test_del_item_does_not_update_original_object() {
    let mut py = Python::acquire();
    let mut v = HashMap::new();
    v.insert(7, 32);
    let ob = v.to_object(&mut py);
    let dict = PyDict::downcast_from(&py, ob).unwrap();
    assert!(dict.del_item(&mut py, 7i32).is_ok()); // change
    assert_eq!(32i32, *v.get(&7i32).unwrap()); // not updated!
}

#[test]
fn test_items_list() {
    let mut py = Python::acquire();
    let mut v = HashMap::new();
    v.insert(7, 32);
    v.insert(8, 42);
    v.insert(9, 123);
    let ob = v.to_object(&mut py);
    let dict = PyDict::downcast_from(&py, ob).unwrap();
    // Can't just compare against a vector of tuples since we don't have a guaranteed ordering.
    let mut key_sum = 0;
    let mut value_sum = 0;
    let list = dict.items_list(&mut py);
    for i in 0..list.len(&py) {
        let el = list.get_item(&mut py, i);
        let tuple = PyTuple::downcast_from(&py, el).unwrap();
        key_sum += tuple.get_item(&mut py, 0).extract::<i32>(&py).unwrap();
        value_sum += tuple.get_item(&mut py, 1).extract::<i32>(&py).unwrap();
    }
    assert_eq!(7 + 8 + 9, key_sum);
    assert_eq!(32 + 42 + 123, value_sum);
}

#[test]
fn test_items() {
    let mut py = Python::acquire();
    let mut v = HashMap::new();
    v.insert(7, 32);
    v.insert(8, 42);
    v.insert(9, 123);
    let ob = v.to_object(&mut py);
    let dict = PyDict::downcast_from(&py, ob).unwrap();
    // Can't just compare against a vector of tuples since we don't have a guaranteed ordering.
    let mut key_sum = 0;
    let mut value_sum = 0;
    for (key, value) in dict.items(&mut py) {
        key_sum += key.extract::<i32>(&py).unwrap();
        value_sum += value.extract::<i32>(&py).unwrap();
    }
    assert_eq!(7 + 8 + 9, key_sum);
    assert_eq!(32 + 42 + 123, value_sum);
}

#[test]
fn test_hashmap_to_python() {
    let mut py = Python::acquire();

    let mut map = HashMap::<i32, i32>::new();
    map.insert(1, 1);

    let m = map.to_object(&mut py);
    let py_map = PyDict::downcast_from(&py, m).unwrap();

    assert!(py_map.len(&py) == 1);
    assert!(py_map.get_item(&mut py, 1).unwrap().unwrap().extract::<i32>(&py).unwrap() == 1);
}

#[test]
fn test_btreemap_to_python() {
    let mut py = Python::acquire();

    let mut map = BTreeMap::<i32, i32>::new();
    map.insert(1, 1);

    let m = map.to_object(&mut py);
    let py_map = PyDict::downcast_from(&py, m).unwrap();

    assert!(py_map.len(&py) == 1);
    assert!(py_map.get_item(&mut py, 1).unwrap().unwrap().extract::<i32>(&py).unwrap() == 1);
}

#[test]
fn test_del_item_absent_key_is_a_foreign_failure() {
    let mut py = Python::acquire();
    let dict = PyDict::new(&mut py);
    dict.set_item(&mut py, 7, 32).unwrap();
    assert!(dict.del_item(&mut py, 7i32).is_ok());
    assert_eq!(
        Err(PyErr::Foreign(ExcKind::KeyError)),
        dict.del_item(&mut py, 7i32)
    );
}

#[test]
fn test_unhashable_key_is_a_type_error() {
    let mut py = Python::acquire();
    let dict = PyDict::new(&mut py);
    let unhashable = HashMap::<i32, i32>::new();
    assert_eq!(
        Err(PyErr::Foreign(ExcKind::TypeError)),
        dict.set_item(&mut py, unhashable, 1i32)
    );
    let unhashable = HashMap::<i32, i32>::new();
    assert_eq!(
        Err(PyErr::Foreign(ExcKind::TypeError)),
        dict.del_item(&mut py, unhashable)
    );
    let unhashable = HashMap::<i32, i32>::new();
    assert_eq!(
        Err(PyErr::Foreign(ExcKind::TypeError)),
        dict.contains(&mut py, unhashable)
    );
}

#[test]
fn test_clear_empties_the_mapping() {
    let mut py = Python::acquire();
    let dict = PyDict::new(&mut py);
    dict.set_item(&mut py, 7, 32).unwrap();
    dict.set_item(&mut py, 8, 42).unwrap();
    assert_eq!(2, dict.len(&py));
    dict.clear(&mut py);
    assert_eq!(0, dict.len(&py));
    assert_eq!(None, dict.get_item(&mut py, 7i32).unwrap());
}

#[test]
fn test_dict_downcast_fails_on_bool() {
    let mut py = Python::acquire();
    let t = true.to_object(&mut py);
    let e = PyDict::downcast_from(&py, t).unwrap_err();
    assert_eq!(e.expected, Kind::Dict);
    assert_eq!(e.actual, Kind::Bool);
}

#[test]
fn test_btreemap_items_keep_key_order() {
    let mut py = Python::acquire();
    let mut map = BTreeMap::<i32, i32>::new();
    map.insert(2, 20);
    map.insert(1, 10);
    map.insert(3, 30);
    let m = map.to_object(&mut py);
    let dict = PyDict::downcast_from(&py, m).unwrap();
    let items = dict.items(&mut py);
    let keys: Vec<i32> = items
        .iter()
        .map(|kv| kv.0.extract::<i32>(&py).unwrap())
        .collect();
    assert_eq!(vec![1, 2, 3], keys);
}

#[test]
fn test_bool_keys_and_values() {
    let mut py = Python::acquire();
    let dict = PyDict::new(&mut py);
    dict.set_item(&mut py, true, 1i32).unwrap();
    dict.set_item(&mut py, false, 0i32).unwrap();
    assert_eq!(2, dict.len(&py));
    assert_eq!(
        1,
        dict.get_item(&mut py, true).unwrap().unwrap().extract::<i32>(&py).unwrap()
    );
    assert_eq!(true, dict.contains(&mut py, false).unwrap());
}

#[test]
fn test_mapping_round_trip() {
    let mut py = Python::acquire();
    let mut v = HashMap::new();
    v.insert(7, 32);
    let ob = v.to_object(&mut py);
    let dict = PyDict::downcast_from(&py, ob).unwrap();
    assert_eq!(1, dict.len(&py));
    assert_eq!(true, dict.contains(&mut py, 7i32).unwrap());
    assert_eq!(
        32,
        dict.get_item(&mut py, 7i32).unwrap().unwrap().extract::<i32>(&py).unwrap()
    );
    assert_eq!(None, dict.get_item(&mut py, 8i32).unwrap());
}

#[test]
fn test_dict_round_trip_law() {
    let mut py = Python::acquire();
    let (len, has, back, miss) = pybridge::dict::dict_round_trip(&mut py, 7, 32, 8);
    assert_eq!(1, len);
    assert!(has);
    assert_eq!(32, back);
    assert!(!miss);
}

#[test]
fn test_dict_delete_behaviour_law() {
    let mut py = Python::acquire();
    let (len, still_there) = pybridge::dict::dict_delete_behaviour(&mut py, 7, 32);
    assert_eq!(0, len);
    assert!(!still_there);
}

#[test]
fn test_get_item_unhashable_key_is_a_type_error() {
    let mut py = Python::acquire();
    let dict = PyDict::new(&mut py);
    dict.set_item(&mut py, 7, 32).unwrap();
    let unhashable = HashMap::<i32, i32>::new();
    assert_eq!(
        Err(PyErr::Foreign(ExcKind::TypeError)),
        dict.get_item(&mut py, unhashable).map(|o| o.is_some())
    );
}

#[test]
fn test_items_release_restores_counts_law() {
    let mut py = Python::acquire();
    let dict = PyDict::new(&mut py);
    dict.set_item(&mut py, 7, 32).unwrap();
    dict.set_item(&mut py, 8, 42).unwrap();
    let v7 = dict.get_item(&mut py, 7i32).unwrap().unwrap();
    let addr7 = v7.raw_address();
    v7.release(&mut py);
    let rc_before = py.refcount(addr7);
    pybridge::dict::items_release_restores_counts(&mut py, &dict);
    assert_eq!(rc_before, py.refcount(addr7));
}

#[test]
fn test_items_takes_one_reference_per_value() {
    let mut py = Python::acquire();
    let dict = PyDict::new(&mut py);
    dict.set_item(&mut py, 7, 32).unwrap();
    let v7 = dict.get_item(&mut py, 7i32).unwrap().unwrap();
    let addr7 = v7.raw_address();
    v7.release(&mut py);
    let rc_before = py.refcount(addr7);
    let pairs = dict.items(&mut py);
    assert_eq!(rc_before + 1, py.refcount(addr7));
    for (k, v) in pairs {
        k.release(&mut py);
        v.release(&mut py);
    }
    assert_eq!(rc_before, py.refcount(addr7));
}
