use shared_nothing::arena::ensure_init;
use shared_nothing::js::{
    js_scalar, key_arg, rval_to_js, ApiError, JsInput, JsKey, JsOutput, KeyArg,
};
use shared_nothing::memory::LocalMemory;
use shared_nothing::number::whole_number;
use shared_nothing::region::{AttachOpts, CreateOpts, SharedRegion};
use shared_nothing::value::{GraphError, RVal, Scalar};

fn number(x: f64) -> JsInput {
    JsInput::Number(x.to_bits())
}

fn text(s: &str) -> JsKey {
    JsKey::Text(s.to_string())
}

#[test]
fn numbers_that_are_integers() {
    let cases: [(f64, Option<i64>); 16] = [
        (0.0, Some(0)),
        (-0.0, Some(0)),
        (1.0, Some(1)),
        (-7.0, Some(-7)),
        (0.5, None),
        (1e-320, None),
        (-2.25, None),
        (4503599627370497.0, Some(4503599627370497)),
        (9007199254740993e0, Some(9007199254740992)),
        (1e18, Some(1_000_000_000_000_000_000)),
        (9223372036854775807.0, Some(i64::MAX)),
        (-9223372036854775808.0, Some(i64::MIN)),
        (9223372036854777856.0, None),
        (1e300, None),
        (f64::INFINITY, None),
        (f64::NAN, None),
    ];
    for (x, expected) in cases {
        assert_eq!(whole_number(x.to_bits()), expected, "{}", x);
        let plain = if x.fract() == 0.0 && x >= i64::MIN as f64 && x <= i64::MAX as f64 {
            Some(x as i64)
        } else {
            None
        };
        assert_eq!(expected, plain, "{}", x);
    }
}

#[test]
fn what_is_stored_for_a_value() {
    assert!(matches!(js_scalar(JsInput::Null), Some(Scalar::Null)));
    assert!(matches!(js_scalar(JsInput::Undefined), Some(Scalar::Null)));
    assert!(matches!(js_scalar(JsInput::Boolean(true)), Some(Scalar::Bool(true))));
    assert!(matches!(js_scalar(number(42.0)), Some(Scalar::Int(42))));
    assert!(matches!(js_scalar(number(1.5)), Some(Scalar::Float(b)) if b == 1.5f64.to_bits()));
    assert!(matches!(js_scalar(JsInput::Text("x".into())), Some(Scalar::Str(s)) if s == "x"));
    assert!(js_scalar(JsInput::Other).is_none());
    let big = JsInput::BigInt { negative: false, words: vec![5, 1, 9] };
    assert!(matches!(js_scalar(big), Some(Scalar::BigInt(v)) if v == (1i128 << 64) + 5));
    let big = JsInput::BigInt { negative: true, words: vec![5, 1, 9] };
    assert!(matches!(js_scalar(big), Some(Scalar::BigInt(v)) if v == -(1i128 << 64) - 5));
    let minus_five = JsInput::BigInt { negative: true, words: vec![5] };
    assert!(matches!(js_scalar(minus_five), Some(Scalar::BigInt(-5))));
    let least = JsInput::BigInt { negative: true, words: vec![0, 1 << 63] };
    assert!(matches!(js_scalar(least), Some(Scalar::BigInt(i128::MIN))));
    let empty = JsInput::BigInt { negative: false, words: vec![] };
    assert!(matches!(js_scalar(empty), Some(Scalar::BigInt(0))));
}

#[test]
fn what_a_key_names() {
    assert!(matches!(key_arg(JsKey::Number(3)), Ok(KeyArg::Index(3))));
    assert!(matches!(key_arg(JsKey::Number(u32::MAX as i64)), Ok(KeyArg::Index(u32::MAX))));
    assert!(matches!(key_arg(JsKey::Number((1 << 32) + 7)), Ok(KeyArg::Index(u32::MAX))));
    assert!(matches!(key_arg(JsKey::Number(-1)), Err(ApiError::NegativeIndex)));
    assert!(matches!(key_arg(text("k")), Ok(KeyArg::Key(s)) if s == "k"));
    assert_eq!(ApiError::NegativeIndex.message(), "index cannot be negative");
}

#[test]
fn what_is_shown() {
    assert!(matches!(rval_to_js(RVal::Object(1)), JsOutput::Null));
    assert!(matches!(rval_to_js(RVal::Array(1)), JsOutput::Null));
    assert!(matches!(rval_to_js(RVal::Mapping(1)), JsOutput::Null));
    assert!(matches!(rval_to_js(RVal::Int(-3)), JsOutput::Int(-3)));
    assert!(matches!(rval_to_js(RVal::BigInt(7)), JsOutput::BigInt(7)));
    assert!(matches!(rval_to_js(RVal::Float(7)), JsOutput::Number(7)));
    assert!(matches!(rval_to_js(RVal::Bool(true)), JsOutput::Boolean(true)));
    assert!(matches!(rval_to_js(RVal::Str("s".into())), JsOutput::Text(s) if s == "s"));
}

#[test]
fn keys_that_a_container_cannot_have() {
    let mut mem = LocalMemory::new((1 << 16) / 8);
    let region = region(&mut mem);
    let list = region.create_array(&mut mem, 4).unwrap();
    let child = region.create_object(&mut mem, 4).unwrap();
    list.push(&mut mem, number(1.0)).unwrap();
    list.push(&mut mem, number(2.0)).unwrap();
    assert_eq!(list.set(&mut mem, text("k"), number(7.0)), Err(ApiError::IndexWanted));
    assert_eq!(list.set_node(&mut mem, text("k"), &child), Err(ApiError::IndexWanted));
    assert_eq!(list.delete(&mut mem, text("k")), Err(ApiError::IndexWanted));
    assert_eq!(list.increment(&mut mem, text("k")), Err(ApiError::IndexWanted));
    assert_eq!(list.length(&mut mem), 2);
    // far behind the end
    let far = || JsKey::Number((1 << 32) + 1);
    let full = ApiError::Graph(GraphError::ArrayFull);
    assert_eq!(list.set(&mut mem, far(), number(9.0)), Err(full));
    assert_eq!(list.set_node(&mut mem, far(), &child), Err(full));
    assert_eq!(list.delete(&mut mem, far()), Err(full));
    assert_eq!(list.has(&mut mem, far()), Ok(false));
    let second = list.get_value(&mut mem, JsKey::Number(1));
    assert!(matches!(second, Ok(JsOutput::Int(2))));
    assert!(matches!(
        SharedRegion::wrap(&mut mem, 4097, 64),
        Err(ApiError::Unaligned)
    ));
}

fn region(mem: &mut LocalMemory) -> SharedRegion {
    SharedRegion::wrap(mem, 4096, 1 << 16).unwrap()
}

#[test]
fn objects_through_references() {
    let mut mem = LocalMemory::new((1 << 16) / 8);
    let region = region(&mut mem);
    assert_eq!(region.id(), "sab");
    assert_eq!(region.base(), 4096);
    assert_eq!(region.capacity(), 1 << 16);
    let root = region.root(&mut mem).unwrap();
    assert_eq!(root.node_type(), "Object");
    assert!(root.is_object() && !root.is_array() && !root.is_map());
    root.set(&mut mem, text("user"), JsInput::Text("alice".into())).unwrap();
    assert_eq!(root.increment(&mut mem, text("hits")), Ok(1));
    let user = region.create_object(&mut mem, 8).unwrap();
    user.set(&mut mem, text("name"), JsInput::Text("Alice".into())).unwrap();
    root.set_node(&mut mem, text("user"), &user).unwrap();
    let got = root.get_node(&mut mem, text("user")).unwrap().unwrap();
    assert_eq!(got, user);
    assert!(
        matches!(got.get_value(&mut mem, text("name")), Ok(JsOutput::Text(s)) if s == "Alice")
    );
    assert!(matches!(root.get_value(&mut mem, text("user")), Ok(JsOutput::Null)));
    assert_eq!(root.get_node(&mut mem, text("hits")), Ok(None));
    assert!(matches!(root.get_value(&mut mem, text("hits")), Ok(JsOutput::Int(1))));
    assert_eq!(root.has(&mut mem, text("hits")), Ok(true));
    assert_eq!(root.length(&mut mem), 2);
    assert_eq!(root.keys(&mut mem).unwrap(), vec!["user", "hits"]);
    assert_eq!(root.delete(&mut mem, text("hits")), Ok(true));
    assert_eq!(root.delete(&mut mem, text("hits")), Ok(false));
    assert_eq!(root.has(&mut mem, text("hits")), Ok(false));
}

#[test]
fn arrays_through_references() {
    let mut mem = LocalMemory::new((1 << 16) / 8);
    let region = region(&mut mem);
    let list = region.create_array(&mut mem, 3).unwrap();
    let map = region.create_map(&mut mem, 1).unwrap();
    assert_eq!(list.node_type(), "Array");
    assert_eq!(map.node_type(), "Map");
    assert_eq!(list.push(&mut mem, number(1.0)), Ok(1));
    assert_eq!(list.push_node(&mut mem, &map), Ok(2));
    list.set(&mut mem, JsKey::Number(0), number(2.5)).unwrap();
    assert!(
        matches!(list.get_value(&mut mem, JsKey::Number(0)), Ok(JsOutput::Number(b)) if b == 2.5f64.to_bits())
    );
    assert_eq!(list.get_node(&mut mem, JsKey::Number(1)).unwrap(), Some(map));
    assert_eq!(list.delete(&mut mem, JsKey::Number(1)), Ok(true));
    assert_eq!(list.has(&mut mem, JsKey::Number(1)), Ok(false));
    list.set_node(&mut mem, JsKey::Number(2), &map).unwrap();
    assert_eq!(list.length(&mut mem), 3);
    assert_eq!(
        list.push(&mut mem, JsInput::Null),
        Err(ApiError::Graph(GraphError::ArrayFull))
    );
    assert_eq!(
        list.set(&mut mem, JsKey::Number(3), JsInput::Null),
        Err(ApiError::Graph(GraphError::ArrayFull))
    );
}

#[test]
fn calls_that_are_refused() {
    let mut mem = LocalMemory::new((1 << 16) / 8);
    let region = region(&mut mem);
    let root = region.root(&mut mem).unwrap();
    let list = region.create_array(&mut mem, 2).unwrap();
    assert_eq!(root.has(&mut mem, JsKey::Number(0)), Err(ApiError::TextWanted));
    assert_eq!(list.has(&mut mem, text("x")), Err(ApiError::IndexWanted));
    assert_eq!(root.set(&mut mem, JsKey::Number(0), JsInput::Null), Err(ApiError::TextWanted));
    assert_eq!(root.set(&mut mem, JsKey::Number(-1), JsInput::Other), Err(ApiError::NodeToSet));
    assert_eq!(root.set(&mut mem, JsKey::Number(-1), JsInput::Null), Err(ApiError::NegativeIndex));
    assert_eq!(root.set_node(&mut mem, JsKey::Number(0), &list), Err(ApiError::TextWanted));
    assert_eq!(root.push(&mut mem, JsInput::Other), Err(ApiError::NotAnArray));
    assert_eq!(root.push_node(&mut mem, &list), Err(ApiError::NotAnArray));
    assert_eq!(list.push(&mut mem, JsInput::Other), Err(ApiError::NodeToPush));
    assert_eq!(root.increment(&mut mem, JsKey::Number(0)), Err(ApiError::CounterByIndex));
    assert_eq!(root.delete(&mut mem, JsKey::Number(0)), Ok(false));
    assert_eq!(ApiError::TextWanted.message(), "object/map keys must be strings");
    assert_eq!(ApiError::IndexWanted.message(), "use an array index (number) for arrays");
    assert_eq!(ApiError::NodeToSet.message(), "use set_node(key, nodeRef) for containers");
    assert_eq!(ApiError::NotAnArray.message(), "push is only valid on arrays");
    assert_eq!(ApiError::NodeToPush.message(), "use push_node for containers");
    assert_eq!(ApiError::CounterByIndex.message(), "increment requires a string key");
    assert_eq!(ApiError::Graph(GraphError::RegionFull).message(), "region full");
}

#[test]
fn regions_that_are_full() {
    let mut mem = LocalMemory::new(8);
    let region = SharedRegion::wrap(&mut mem, 8, 64).unwrap();
    assert_eq!(region.root(&mut mem), Err(ApiError::RootFull));
    assert_eq!(region.create_object(&mut mem, 1), Err(ApiError::CapacityExceeded));
    assert_eq!(ApiError::RootFull.message(), "region full");
    assert_eq!(ApiError::CapacityExceeded.message(), "region capacity exceeded");
    assert_eq!(SharedRegion::wrap(&mut mem, 0, 64).err(), Some(ApiError::NoMemory));
    assert_eq!(ApiError::NoMemory.message(), "buffer is not backed by memory");
    let mut none = LocalMemory::new(0);
    assert_eq!(
        SharedRegion::wrap(&mut none, 8, 0).err(),
        Some(ApiError::Graph(GraphError::Busy))
    );
}

#[test]
fn options() {
    let opts = |size: Option<u32>, id: Option<&str>, backend: Option<&str>| CreateOpts {
        size,
        id: id.map(|s| s.to_string()),
        backend: backend.map(|s| s.to_string()),
    };
    assert_eq!(
        SharedRegion::create(opts(None, None, None), 0x1f).unwrap(),
        ("1f".to_string(), 1 << 20)
    );
    assert_eq!(
        SharedRegion::create(opts(Some(4096), Some("abc"), Some("mmap")), 1).unwrap(),
        ("abc".to_string(), 4096)
    );
    let nanos: u128 = 1_700_000_000_123_456_789;
    assert_eq!(
        SharedRegion::create(opts(Some(0), Some(""), None), nanos).unwrap(),
        (format!("{:x}", nanos), 0)
    );
    assert_eq!(SharedRegion::create(opts(None, None, None), 0).unwrap().0, "0");
    assert_eq!(
        SharedRegion::create(opts(None, None, Some("sab")), 0).err(),
        Some(ApiError::SabCreated)
    );
    let attach = |backend: Option<&str>| AttachOpts { backend: backend.map(|s| s.to_string()) };
    assert_eq!(SharedRegion::attach(attach(None), "t".into()).unwrap(), "t");
    assert_eq!(
        SharedRegion::attach(attach(Some("sab")), "t".into()).err(),
        Some(ApiError::SabAttached)
    );
    assert_eq!(ApiError::SabCreated.message(), "sab regions are created via wrap(arrayBuffer)");
    assert_eq!(ApiError::SabAttached.message(), "sab regions are attached via wrap(arrayBuffer)");
}

#[test]
fn wrapping_twice_keeps_the_graph() {
    let mut mem = LocalMemory::new((1 << 16) / 8);
    assert!(ensure_init(&mut mem, 1 << 16, 1));
    let first = region(&mut mem);
    let root = first.root(&mut mem).unwrap();
    root.set(&mut mem, text("k"), number(1.0)).unwrap();
    let second = region(&mut mem);
    assert_eq!(second.root(&mut mem).unwrap(), root);
    assert_eq!(root.length(&mut mem), 1);
}
