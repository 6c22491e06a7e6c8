use std::sync::atomic::AtomicU64;

use shared_nothing::arena::ensure_init;
use shared_nothing::graph::{
    create_array, create_map, create_object, delete_index, delete_key, find_key, get_index, get_key,
    has_key, hkind, hoff, increment_counter, is_container, is_scalar, keys_of, length, make_handle,
    new_scalar_node, push, put_index, put_key_handle, put_key_scalar, put_key_value,
    read_index_handle, read_key_handle, root_handle, rval, GraphError, RVal, Scalar, H_INVALID,
    KIND_ARRAY, KIND_INT, KIND_OBJECT,
};
use shared_nothing::memory::{LocalMemory, Memory, SharedMemory};
use shared_nothing::node::{claim, claim_at, commit, increment_node};

fn make_region(size: usize) -> LocalMemory {
    let mut mem = LocalMemory::new(size / 8);
    assert!(ensure_init(&mut mem, size as u64, 1));
    mem
}

fn cells(size: usize) -> Vec<AtomicU64> {
    (0..size / 8).map(|_| AtomicU64::new(0)).collect()
}

#[test]
fn object_roundtrip_and_nesting() {
    let mut mem = make_region(1 << 20);
    let root = root_handle(&mut mem).unwrap();
    put_key_scalar(&mut mem, root, "name", &Scalar::Str("alice".into())).unwrap();
    put_key_scalar(&mut mem, root, "age", &Scalar::Int(30)).unwrap();
    assert!(matches!(get_key(&mut mem, root, "name"), Ok(RVal::Str(s)) if s == "alice"));
    assert!(matches!(get_key(&mut mem, root, "age"), Ok(RVal::Int(30))));
    // nested container
    let child = create_object(&mut mem, 16).unwrap();
    put_key_handle(&mut mem, root, "user", child).unwrap();
    put_key_scalar(&mut mem, child, "id", &Scalar::Float(1.5f64.to_bits())).unwrap();
    let rv = get_key(&mut mem, root, "user").unwrap();
    match rv {
        RVal::Object(h) => {
            assert!(
                matches!(get_key(&mut mem, h, "id"), Ok(RVal::Float(f)) if f64::from_bits(f) == 1.5)
            );
        }
        _ => panic!(),
    }
}

#[test]
fn arrays_and_push() {
    let mut mem = make_region(1 << 20);
    let a = create_array(&mut mem, 8).unwrap();
    let ten = new_scalar_node(&mut mem, &Scalar::Int(10)).unwrap();
    push(&mut mem, a, ten).unwrap();
    let twenty = new_scalar_node(&mut mem, &Scalar::Int(20)).unwrap();
    push(&mut mem, a, twenty).unwrap();
    assert_eq!(length(&mut mem, a).unwrap(), 2);
    assert!(matches!(get_index(&mut mem, a, 0), Ok(RVal::Int(10))));
}

#[test]
fn concurrent_increment_no_lost_updates() {
    // Eight views of the same memory take turns.
    let cells = cells(1 << 20);
    let mut first = SharedMemory::new(&cells, u64::MAX);
    assert!(ensure_init(&mut first, 1 << 20, 1));
    let stat = create_object(&mut first, 16).unwrap();
    let mut views: Vec<SharedMemory> =
        (0..8).map(|_| SharedMemory::new(&cells, u64::MAX)).collect();
    for _ in 0..5000 {
        for view in views.iter_mut() {
            increment_counter(view, stat, "hits").unwrap();
        }
    }
    match get_key(&mut first, stat, "hits").unwrap() {
        RVal::Int(v) => assert_eq!(v, 8 * 5000, "no lost updates"),
        other => panic!("unexpected counter value: {:?}", other),
    }
}

#[test]
fn every_scalar_is_read_back() {
    let mut mem = make_region(1 << 16);
    let map = create_map(&mut mem, 0).unwrap();
    let wide: i128 = -(1i128 << 100) - 7;
    put_key_scalar(&mut mem, map, "null", &Scalar::Null).unwrap();
    put_key_scalar(&mut mem, map, "yes", &Scalar::Bool(true)).unwrap();
    put_key_scalar(&mut mem, map, "no", &Scalar::Bool(false)).unwrap();
    put_key_scalar(&mut mem, map, "least", &Scalar::Int(i64::MIN)).unwrap();
    put_key_scalar(&mut mem, map, "wide", &Scalar::BigInt(wide)).unwrap();
    put_key_scalar(&mut mem, map, "text", &Scalar::Str("h\u{e9}llo \u{1f600}".into())).unwrap();
    put_key_scalar(&mut mem, map, "none", &Scalar::Str(String::new())).unwrap();
    assert!(matches!(get_key(&mut mem, map, "null"), Ok(RVal::Null)));
    assert!(matches!(get_key(&mut mem, map, "yes"), Ok(RVal::Bool(true))));
    assert!(matches!(get_key(&mut mem, map, "no"), Ok(RVal::Bool(false))));
    assert!(matches!(get_key(&mut mem, map, "least"), Ok(RVal::Int(i64::MIN))));
    assert!(matches!(get_key(&mut mem, map, "wide"), Ok(RVal::BigInt(v)) if v == wide));
    assert!(
        matches!(get_key(&mut mem, map, "text"), Ok(RVal::Str(s)) if s == "h\u{e9}llo \u{1f600}")
    );
    assert!(matches!(get_key(&mut mem, map, "none"), Ok(RVal::Str(s)) if s.is_empty()));
    assert_eq!(length(&mut mem, map), Ok(7));
}

#[test]
fn a_value_that_fits_is_overwritten_in_place() {
    let mut mem = make_region(1 << 12);
    let obj = create_object(&mut mem, 4).unwrap();
    put_key_scalar(&mut mem, obj, "k", &Scalar::Str("12345678".into())).unwrap();
    let before = read_key_handle(&mut mem, obj, "k").unwrap();
    put_key_scalar(&mut mem, obj, "k", &Scalar::Str("abc".into())).unwrap();
    assert_eq!(read_key_handle(&mut mem, obj, "k").unwrap(), before);
    assert!(matches!(get_key(&mut mem, obj, "k"), Ok(RVal::Str(s)) if s == "abc"));
    // too long, or of another kind: a new node
    put_key_scalar(&mut mem, obj, "k", &Scalar::Str("123456789".into())).unwrap();
    let after = read_key_handle(&mut mem, obj, "k").unwrap();
    assert_ne!(after, before);
    put_key_scalar(&mut mem, obj, "k", &Scalar::Int(1)).unwrap();
    assert_ne!(read_key_handle(&mut mem, obj, "k").unwrap(), after);
    assert!(matches!(get_key(&mut mem, obj, "k"), Ok(RVal::Int(1))));
    assert_eq!(length(&mut mem, obj), Ok(1));
}

#[test]
fn a_full_container_refuses_new_keys() {
    let mut mem = make_region(1 << 12);
    let obj = create_object(&mut mem, 2).unwrap();
    put_key_scalar(&mut mem, obj, "a", &Scalar::Int(1)).unwrap();
    put_key_scalar(&mut mem, obj, "b", &Scalar::Int(2)).unwrap();
    assert_eq!(
        put_key_scalar(&mut mem, obj, "c", &Scalar::Int(3)),
        Err(GraphError::ContainerFull)
    );
    assert_eq!(put_key_handle(&mut mem, obj, "c", obj), Err(GraphError::ContainerFull));
    assert_eq!(GraphError::ContainerFull.message(), "container capacity exceeded");
    assert_eq!(length(&mut mem, obj), Ok(2));
    assert_eq!(has_key(&mut mem, obj, "c"), Ok(false));
    put_key_scalar(&mut mem, obj, "a", &Scalar::Int(10)).unwrap();
    assert!(matches!(get_key(&mut mem, obj, "a"), Ok(RVal::Int(10))));
    // a deleted key makes room
    assert_eq!(delete_key(&mut mem, obj, "a"), Ok(true));
    put_key_scalar(&mut mem, obj, "c", &Scalar::Int(3)).unwrap();
    assert_eq!(keys_of(&mut mem, obj).unwrap(), vec!["c", "b"]);
}

#[test]
fn a_full_region_refuses() {
    // Header 48, object 40 + 16 * 2, which leaves 8 bytes.
    let mut mem = make_region(128);
    let obj = create_object(&mut mem, 2).unwrap();
    assert_eq!(put_key_scalar(&mut mem, obj, "a", &Scalar::Null), Err(GraphError::RegionFull));
    assert_eq!(put_key_handle(&mut mem, obj, "a", obj), Err(GraphError::RegionFull));
    assert_eq!(increment_counter(&mut mem, obj, "a"), Err(GraphError::KeyDisappeared));
    assert_eq!(create_map(&mut mem, 1), None);
    assert_eq!(new_scalar_node(&mut mem, &Scalar::Null), None);
    assert_eq!(length(&mut mem, obj), Ok(0));
    assert_eq!(GraphError::RegionFull.message(), "region full");
    assert_eq!(GraphError::KeyDisappeared.message(), "key disappeared");
    assert_eq!(GraphError::InvalidValue.message(), "invalid value");
}

#[test]
fn a_counter_that_finds_no_space_in_place_of_a_value() {
    // Header 48, object 40 + 16, key 40 + 8, text 40 + 8: nothing is left.
    let mut mem = make_region(200);
    let obj = create_object(&mut mem, 1).unwrap();
    put_key_scalar(&mut mem, obj, "k", &Scalar::Str("x".into())).unwrap();
    assert_eq!(increment_counter(&mut mem, obj, "k"), Err(GraphError::RegionFull));
    assert!(matches!(get_key(&mut mem, obj, "k"), Ok(RVal::Str(s)) if s == "x"));
}

#[test]
fn counters_count() {
    let mut mem = make_region(1 << 12);
    let obj = create_object(&mut mem, 4).unwrap();
    assert_eq!(increment_counter(&mut mem, obj, "n"), Ok(1));
    assert_eq!(increment_counter(&mut mem, obj, "n"), Ok(2));
    put_key_scalar(&mut mem, obj, "n", &Scalar::Int(i64::MAX)).unwrap();
    assert_eq!(increment_counter(&mut mem, obj, "n"), Ok(i64::MIN));
    // what is no number starts at zero
    put_key_scalar(&mut mem, obj, "s", &Scalar::Str("text".into())).unwrap();
    assert_eq!(increment_counter(&mut mem, obj, "s"), Ok(1));
    assert_eq!(length(&mut mem, obj), Ok(2));
}

#[test]
fn linking_does_not_copy() {
    let mut mem = make_region(1 << 12);
    let root = root_handle(&mut mem).unwrap();
    let child = create_map(&mut mem, 4).unwrap();
    put_key_handle(&mut mem, root, "child", child).unwrap();
    put_key_scalar(&mut mem, child, "x", &Scalar::Int(1)).unwrap();
    let got = read_key_handle(&mut mem, root, "child").unwrap();
    assert_eq!(got, child);
    assert!(matches!(get_key(&mut mem, got, "x"), Ok(RVal::Int(1))));
    // relinking
    let other = create_array(&mut mem, 4).unwrap();
    put_key_handle(&mut mem, root, "child", other).unwrap();
    assert!(matches!(get_key(&mut mem, root, "child"), Ok(RVal::Array(h)) if h == other));
    assert!(matches!(rval(&mut mem, child), Ok(RVal::Mapping(h)) if h == child));
}

#[test]
fn the_root_is_one() {
    let mut mem = make_region(1 << 12);
    let a = root_handle(&mut mem).unwrap();
    let b = root_handle(&mut mem).unwrap();
    assert_eq!(a, b);
    assert_eq!(hkind(a), KIND_OBJECT);
    let mut small = make_region(64);
    assert_eq!(root_handle(&mut small), None);
}

#[test]
fn values_are_copied_and_containers_linked() {
    let mut mem = make_region(1 << 12);
    let obj = create_object(&mut mem, 4).unwrap();
    let five = new_scalar_node(&mut mem, &Scalar::Int(5)).unwrap();
    put_key_value(&mut mem, obj, "five", five).unwrap();
    assert!(matches!(get_key(&mut mem, obj, "five"), Ok(RVal::Int(5))));
    assert_ne!(read_key_handle(&mut mem, obj, "five").unwrap(), five);
    put_key_value(&mut mem, obj, "self", obj).unwrap();
    assert_eq!(read_key_handle(&mut mem, obj, "self").unwrap(), obj);
    put_key_value(&mut mem, obj, "nothing", H_INVALID).unwrap();
    assert!(matches!(get_key(&mut mem, obj, "nothing"), Ok(RVal::Null)));
    assert_eq!(has_key(&mut mem, obj, "nothing"), Ok(true));
}

#[test]
fn deleting_keys() {
    let mut mem = make_region(1 << 12);
    let obj = create_object(&mut mem, 4).unwrap();
    for key in ["a", "b", "c"] {
        put_key_scalar(&mut mem, obj, key, &Scalar::Str(key.into())).unwrap();
    }
    assert_eq!(delete_key(&mut mem, obj, "a"), Ok(true));
    assert_eq!(delete_key(&mut mem, obj, "a"), Ok(false));
    assert_eq!(has_key(&mut mem, obj, "a"), Ok(false));
    assert_eq!(read_key_handle(&mut mem, obj, "a"), Ok(H_INVALID));
    assert_eq!(length(&mut mem, obj), Ok(2));
    // keys behind the gap are still found
    assert!(matches!(get_key(&mut mem, obj, "b"), Ok(RVal::Str(s)) if s == "b"));
    assert!(matches!(get_key(&mut mem, obj, "c"), Ok(RVal::Str(s)) if s == "c"));
    assert_eq!(delete_key(&mut mem, obj, "b"), Ok(true));
    assert!(matches!(get_key(&mut mem, obj, "c"), Ok(RVal::Str(s)) if s == "c"));
    assert_eq!(keys_of(&mut mem, obj).unwrap(), vec!["c"]);
}

#[test]
fn indexes_of_arrays() {
    let mut mem = make_region(1 << 12);
    let a = create_array(&mut mem, 3).unwrap();
    let one = new_scalar_node(&mut mem, &Scalar::Int(1)).unwrap();
    let two = new_scalar_node(&mut mem, &Scalar::Int(2)).unwrap();
    put_index(&mut mem, a, 1, one).unwrap();
    assert_eq!(length(&mut mem, a), Ok(2));
    assert!(matches!(get_index(&mut mem, a, 0), Ok(RVal::Null)));
    assert!(matches!(get_index(&mut mem, a, 1), Ok(RVal::Int(1))));
    put_index(&mut mem, a, 0, two).unwrap();
    assert_eq!(length(&mut mem, a), Ok(2));
    assert_eq!(push(&mut mem, a, two), Ok(3));
    assert_eq!(push(&mut mem, a, two), Err(GraphError::ArrayFull));
    assert_eq!(put_index(&mut mem, a, 3, one), Err(GraphError::ArrayFull));
    assert_eq!(delete_index(&mut mem, a, 3), Err(GraphError::ArrayFull));
    assert_eq!(GraphError::ArrayFull.message(), "array capacity exceeded");
    assert_eq!(delete_index(&mut mem, a, 1), Ok(true));
    assert_eq!(read_index_handle(&mut mem, a, 1), Ok(H_INVALID));
    assert_eq!(length(&mut mem, a), Ok(3));
    assert!(matches!(get_index(&mut mem, a, 2), Ok(RVal::Int(2))));
    assert_eq!(read_index_handle(&mut mem, a, 7), Ok(H_INVALID));
    assert!(matches!(get_index(&mut mem, a, 7), Ok(RVal::Null)));
}

#[test]
fn handles_hold_kind_and_offset() {
    let h = make_handle(KIND_INT, 0x1234);
    assert_eq!(h, 0x0600_0000_0000_1234);
    assert_eq!(hkind(h), KIND_INT);
    assert_eq!(hoff(h), 0x1234);
    assert!(is_scalar(h));
    assert!(!is_container(h));
    assert!(is_container(make_handle(KIND_ARRAY, 48)));
    assert!(!is_scalar(H_INVALID));
    assert!(!is_container(H_INVALID));
}

#[test]
fn bytes_that_are_no_text_are_replaced() {
    let mut mem = make_region(1 << 12);
    let obj = create_object(&mut mem, 2).unwrap();
    put_key_scalar(&mut mem, obj, "k", &Scalar::Str("abcdefgh".into())).unwrap();
    let h = read_key_handle(&mut mem, obj, "k").unwrap();
    let bytes = [b'a', 0xff, b'b', 0xc3, 0xa9, b'c', 0xe2, 0x82];
    mem.store(hoff(h) + 40, u64::from_le_bytes(bytes));
    let expected = String::from_utf8_lossy(&bytes).into_owned();
    assert_eq!(expected, "a\u{fffd}b\u{e9}c\u{fffd}");
    assert!(matches!(get_key(&mut mem, obj, "k"), Ok(RVal::Str(s)) if s == expected));
}

#[test]
fn a_writer_that_does_not_finish_is_reported() {
    let cells = cells(1 << 12);
    let mut mem = SharedMemory::new(&cells, 100);
    assert!(ensure_init(&mut mem, 1 << 12, 1));
    let obj = create_object(&mut mem, 2).unwrap();
    let list = create_array(&mut mem, 2).unwrap();
    put_key_scalar(&mut mem, obj, "n", &Scalar::Int(1)).unwrap();
    // another thread has claimed both
    mem.store(hoff(obj) + 16, 3);
    mem.store(hoff(list) + 16, 1);
    let busy = GraphError::Busy;
    assert_eq!(put_key_scalar(&mut mem, obj, "n", &Scalar::Int(2)), Err(busy));
    assert_eq!(put_key_handle(&mut mem, obj, "n", obj), Err(busy));
    assert_eq!(delete_key(&mut mem, obj, "n"), Err(busy));
    assert_eq!(increment_counter(&mut mem, obj, "n"), Err(busy));
    assert_eq!(push(&mut mem, list, obj), Err(busy));
    assert_eq!(put_index(&mut mem, list, 0, obj), Err(busy));
    assert_eq!(has_key(&mut mem, obj, "n"), Err(busy));
    assert_eq!(busy.message(), "node is locked by another writer");
    mem.store(hoff(obj) + 16, 4);
    let mut again = SharedMemory::new(&cells, 100);
    assert_eq!(increment_counter(&mut again, obj, "n"), Ok(2));
}

#[test]
fn versions_go_up_by_two() {
    let mut mem = make_region(1 << 12);
    let obj = create_object(&mut mem, 2).unwrap();
    put_key_scalar(&mut mem, obj, "a", &Scalar::Int(1)).unwrap();
    assert_eq!(mem.load(hoff(obj) + 16), 2);
    delete_key(&mut mem, obj, "a").unwrap();
    assert_eq!(mem.load(hoff(obj) + 16), 4);
    delete_key(&mut mem, obj, "a").unwrap();
    assert_eq!(mem.load(hoff(obj) + 16), 4);
}

#[test]
fn two_views_see_the_same_graph() {
    let cells = cells(1 << 16);
    let mut a = SharedMemory::new(&cells, u64::MAX);
    let mut b = SharedMemory::new(&cells, u64::MAX);
    assert!(ensure_init(&mut a, 1 << 16, 1));
    assert!(ensure_init(&mut b, 1 << 10, 2));
    let root = root_handle(&mut a).unwrap();
    assert_eq!(root_handle(&mut b).unwrap(), root);
    put_key_scalar(&mut a, root, "name", &Scalar::Str("Bob".into())).unwrap();
    assert!(matches!(get_key(&mut b, root, "name"), Ok(RVal::Str(s)) if s == "Bob"));
    assert_eq!(increment_counter(&mut b, root, "hits"), Ok(1));
    assert_eq!(increment_counter(&mut a, root, "hits"), Ok(2));
}

#[test]
fn a_version_that_has_moved_on_cannot_be_claimed() {
    let cells = cells(1 << 12);
    let mut a = SharedMemory::new(&cells, 100);
    let mut b = SharedMemory::new(&cells, 100);
    assert!(ensure_init(&mut a, 1 << 12, 1));
    let obj = create_object(&mut a, 4).unwrap();
    let n = hoff(obj);
    // one thread looks, the other changes the object
    let (seq, entry) = find_key(&mut a, n, "k").unwrap();
    assert!(entry.is_none());
    put_key_scalar(&mut b, obj, "k", &Scalar::Int(2)).unwrap();
    assert!(!claim_at(&mut a, n, seq));
    let (seq, entry) = find_key(&mut a, n, "k").unwrap();
    assert!(entry.is_some());
    assert!(claim_at(&mut a, n, seq));
    // one writer at a time
    assert_eq!(claim(&mut b, n), None);
    assert_eq!(find_key(&mut b, n, "k"), None);
    commit(&mut a, n, seq);
    let mut c = SharedMemory::new(&cells, 100);
    assert_eq!(claim(&mut c, n), Some(seq + 2));
}

#[test]
fn a_node_is_counted_up_under_its_version() {
    let mut mem = make_region(1 << 12);
    let h = new_scalar_node(&mut mem, &Scalar::Int(41)).unwrap();
    assert_eq!(increment_node(&mut mem, hoff(h)), Some(42));
    assert!(matches!(rval(&mut mem, h), Ok(RVal::Int(42))));
    assert_eq!(mem.load(hoff(h) + 16), 2);
    mem.store(hoff(h) + 16, 3);
    assert_eq!(increment_node(&mut mem, hoff(h)), None);
    assert!(matches!(rval(&mut mem, h), Ok(RVal::Int(42))));
}

#[test]
fn keys_are_listed_once_each() {
    let mut mem = make_region(1 << 16);
    let map = create_map(&mut mem, 4).unwrap();
    for key in ["a", "é", "c"] {
        put_key_scalar(&mut mem, map, key, &Scalar::Int(1)).unwrap();
        put_key_scalar(&mut mem, map, key, &Scalar::Int(2)).unwrap();
    }
    assert_eq!(keys_of(&mut mem, map).unwrap(), ["a", "é", "c"]);
    assert!(delete_key(&mut mem, map, "a").unwrap());
    assert_eq!(keys_of(&mut mem, map).unwrap(), ["é", "c"]);
    // The slot that became free comes first.
    put_key_scalar(&mut mem, map, "d", &Scalar::Int(3)).unwrap();
    assert_eq!(keys_of(&mut mem, map).unwrap(), ["d", "é", "c"]);
    assert_eq!(length(&mut mem, map).unwrap(), 3);
}

#[test]
fn a_put_leaves_the_other_keys_alone() {
    let mut mem = make_region(1 << 16);
    let object = create_object(&mut mem, 4).unwrap();
    put_key_scalar(&mut mem, object, "x", &Scalar::Int(1)).unwrap();
    put_key_scalar(&mut mem, object, "y", &Scalar::Str("one".into())).unwrap();
    let y = read_key_handle(&mut mem, object, "y");
    put_key_scalar(&mut mem, object, "x", &Scalar::Str("longer than a number".into())).unwrap();
    put_key_scalar(&mut mem, object, "z", &Scalar::Bool(true)).unwrap();
    assert!(delete_key(&mut mem, object, "x").unwrap());
    assert_eq!(read_key_handle(&mut mem, object, "y"), y);
    assert!(matches!(get_key(&mut mem, object, "y"), Ok(RVal::Str(s)) if s == "one"));
    assert!(matches!(get_key(&mut mem, object, "z"), Ok(RVal::Bool(true))));
}

#[test]
fn views_share_root_and_blocks() {
    let cells = cells(1 << 16);
    let mut one = SharedMemory::new(&cells, 0);
    let mut other = SharedMemory::new(&cells, 0);
    assert!(ensure_init(&mut one, 1 << 16, 1));
    assert!(ensure_init(&mut other, 1 << 16, 1));
    let root = root_handle(&mut one).unwrap();
    assert_eq!(root_handle(&mut other), Some(root));
    let first = create_object(&mut one, 4).unwrap();
    let second = create_array(&mut other, 4).unwrap();
    let third = create_map(&mut one, 4).unwrap();
    assert_eq!(hoff(second), hoff(first) + 40 + 16 * 4);
    assert_eq!(hoff(third), hoff(second) + 40 + 8 * 4);
    assert_eq!(root_handle(&mut one), Some(root));
}

#[test]
fn a_refused_change_releases_the_node() {
    let mut mem = make_region(1 << 12);
    let object = create_object(&mut mem, 1).unwrap();
    put_key_scalar(&mut mem, object, "a", &Scalar::Int(1)).unwrap();
    assert!(matches!(
        put_key_scalar(&mut mem, object, "b", &Scalar::Int(2)),
        Err(GraphError::ContainerFull)
    ));
    assert_eq!(mem.load(hoff(object) + 16) % 2, 0);
    assert!(matches!(get_key(&mut mem, object, "a"), Ok(RVal::Int(1))));
    put_key_scalar(&mut mem, object, "a", &Scalar::Int(3)).unwrap();
    assert!(matches!(get_key(&mut mem, object, "a"), Ok(RVal::Int(3))));
    let array = create_array(&mut mem, 1).unwrap();
    assert!(matches!(push(&mut mem, array, object), Ok(1)));
    assert!(matches!(push(&mut mem, array, object), Err(GraphError::ArrayFull)));
    assert_eq!(mem.load(hoff(array) + 16) % 2, 0);
}

#[test]
fn calls_of_several_views_keep_nodes_and_keys() {
    let cells = cells(1 << 16);
    let mut first = SharedMemory::new(&cells, 0);
    assert!(ensure_init(&mut first, 1 << 16, 1));
    let object = create_object(&mut first, 8).unwrap();
    let array = create_array(&mut first, 8).unwrap();
    put_key_scalar(&mut first, object, "name", &Scalar::Str("abc".into())).unwrap();
    put_key_scalar(&mut first, object, "wide", &Scalar::BigInt(-1)).unwrap();
    let name = read_key_handle(&mut first, object, "name").unwrap();
    let wide = read_key_handle(&mut first, object, "wide").unwrap();
    let key = hoff(first.load(hoff(object) + 40));
    let text: Vec<u64> = (0..6).map(|i| first.load(key + 8 * i)).collect();
    let mut views: Vec<SharedMemory> = (0..4).map(|_| SharedMemory::new(&cells, 0)).collect();
    for round in 0..8u64 {
        for (i, view) in views.iter_mut().enumerate() {
            match (round as usize + i) % 4 {
                0 => put_key_scalar(view, object, "name", &Scalar::Str("d".repeat(i))).unwrap(),
                1 => {
                    let wide = Scalar::BigInt((round as i128) << 70);
                    put_key_scalar(view, object, "wide", &wide).unwrap();
                }
                2 => {
                    increment_counter(view, object, "hits").unwrap();
                }
                _ => put_index(view, array, i, object).unwrap(),
            }
        }
    }
    for node in [object, array, name, wide] {
        assert_eq!(first.load(hoff(node)) % 256, hkind(node) as u64);
        assert_eq!(first.load(hoff(node) + 16) % 2, 0);
    }
    assert_eq!(first.load(hoff(object) + 8) % (1 << 32), 8);
    assert_eq!(first.load(hoff(array) + 8) % (1 << 32), 8);
    assert_eq!(first.load(hoff(name) + 8) % (1 << 32), 8);
    let now: Vec<u64> = (0..6).map(|i| first.load(key + 8 * i)).collect();
    assert_eq!(now, text);
    assert!(matches!(get_key(&mut first, object, "hits"), Ok(RVal::Int(8))));
    assert_eq!(read_key_handle(&mut first, object, "name"), Ok(name));
}

#[test]
fn several_views_count_up_what_was_absent() {
    let cells = cells(1 << 16);
    let mut first = SharedMemory::new(&cells, 0);
    assert!(ensure_init(&mut first, 1 << 16, 1));
    let object = create_object(&mut first, 4).unwrap();
    put_key_scalar(&mut first, object, "old", &Scalar::Int(40)).unwrap();
    let mut views: Vec<SharedMemory> = (0..3).map(|_| SharedMemory::new(&cells, 0)).collect();
    for (i, view) in views.iter_mut().enumerate() {
        // the first view calls once, the second twice, the third three times
        for _ in 0..=i {
            increment_counter(view, object, "new").unwrap();
            increment_counter(view, object, "old").unwrap();
        }
    }
    assert!(matches!(get_key(&mut first, object, "new"), Ok(RVal::Int(6))));
    assert!(matches!(get_key(&mut first, object, "old"), Ok(RVal::Int(46))));
    assert_eq!(length(&mut first, object), Ok(2));
}

#[test]
fn an_absent_key_is_set_once() {
    let cells = cells(1 << 16);
    let mut a = SharedMemory::new(&cells, 0);
    let mut b = SharedMemory::new(&cells, 0);
    assert!(ensure_init(&mut a, 1 << 16, 1));
    let map = create_map(&mut a, 4).unwrap();
    // both look before either has set the key
    let (_, found) = find_key(&mut a, hoff(map), "k").unwrap();
    let (seq, missing) = find_key(&mut b, hoff(map), "k").unwrap();
    assert!(found.is_none() && missing.is_none());
    put_key_scalar(&mut a, map, "k", &Scalar::Int(1)).unwrap();
    assert!(!claim_at(&mut b, hoff(map), seq));
    put_key_scalar(&mut b, map, "k", &Scalar::Str("a text".into())).unwrap();
    assert_eq!(keys_of(&mut a, map).unwrap(), ["k"]);
    assert_eq!(length(&mut a, map), Ok(1));
    assert!(matches!(get_key(&mut a, map, "k"), Ok(RVal::Str(s)) if s == "a text"));
}

#[test]
fn what_one_view_makes_and_links_another_changes() {
    let cells = cells(1 << 16);
    let mut a = SharedMemory::new(&cells, 0);
    let mut b = SharedMemory::new(&cells, 0);
    assert!(ensure_init(&mut a, 1 << 16, 1));
    let root = root_handle(&mut a).unwrap();
    let inner = create_map(&mut a, 4).unwrap();
    put_key_handle(&mut a, root, "inner", inner).unwrap();
    let seen = read_key_handle(&mut b, root, "inner").unwrap();
    assert_eq!(seen, inner);
    put_key_scalar(&mut b, seen, "x", &Scalar::Int(1)).unwrap();
    assert_eq!(increment_counter(&mut a, inner, "x"), Ok(2));
    assert_eq!(delete_key(&mut b, seen, "x"), Ok(true));
    assert_eq!(length(&mut a, inner), Ok(0));
}
