use shared_nothing::arena::{RegionHeader, INIT_READY};
use shared_nothing::backend::{
    attach_mmap, create_mmap, os_error, shm_path, Action, Answer, Context, IdError, MappedRegion,
    BACKEND_MMAP,
};
use shared_nothing::graph::{get_key, put_key_scalar, root_handle, RVal, Scalar};
use shared_nothing::memory::LocalMemory;
use shared_nothing::region::SharedRegion;

#[test]
fn names_of_shared_memory() {
    assert_eq!(shm_path("abc").unwrap(), "/shared_nothing_abc");
    let long = "x".repeat(60);
    assert!(shm_path(&long).is_ok());
    assert_eq!(shm_path(&"x".repeat(61)), Err(IdError::NotAToken));
    // the length is one of bytes
    assert_eq!(shm_path(&"\u{e9}".repeat(31)), Err(IdError::NotAToken));
    assert_eq!(shm_path(""), Err(IdError::NotAToken));
    assert_eq!(shm_path("a/b"), Err(IdError::NotAToken));
    assert_eq!(shm_path("a b"), Err(IdError::NotAToken));
    assert_eq!(shm_path("a_b"), Err(IdError::NotAToken));
    assert_eq!(shm_path("\u{e9}"), Err(IdError::NotAToken));
    assert_eq!(shm_path("Az09").unwrap(), "/shared_nothing_Az09");
    assert_eq!(shm_path("a\0b"), Err(IdError::HasZero));
    assert_eq!(IdError::NotAToken.message(), "invalid id: must be a short alphanumeric token");
    assert_eq!(IdError::HasZero.message(), "invalid id");
}

#[test]
fn creating_asks_for_one_thing_after_the_other() {
    let (run, action) = create_mmap("tok", 4096);
    assert!(
        matches!(action, Action::Open { name, create: true } if name == "/shared_nothing_tok")
    );
    let (run, action) = run.map_shm(Answer::Opened(7));
    assert!(matches!(action, Action::Resize { fd: 7, size: 4096 }));
    let (run, action) = run.map_shm(Answer::Resized(true));
    assert!(matches!(action, Action::MapPages { fd: 7, size: 4096 }));
    let (_, action) = run.map_shm(Answer::Mapped(Some(0x5000)));
    match action {
        Action::Done(region) => {
            assert_eq!(region.base, 0x5000);
            assert_eq!(region.capacity, 4096);
            assert_eq!(region.fd, 7);
            assert_eq!(region.name, Some("/shared_nothing_tok".to_string()));
        }
        other => panic!("{:?}", other),
    }
}

#[test]
fn what_is_created_is_initialized() {
    let (run, _) = create_mmap("tok", 4096);
    let (run, _) = run.map_shm(Answer::Opened(7));
    let (run, _) = run.map_shm(Answer::Resized(true));
    let (run, action) = run.map_shm(Answer::Mapped(Some(0x5000)));
    let region = match action {
        Action::Done(region) => region,
        other => panic!("{:?}", other),
    };
    let mut mem = LocalMemory::new(512);
    assert!(run.finish(&mut mem, &region));
    let hdr = RegionHeader::from_base(&mut mem);
    assert_eq!((hdr.init_state, hdr.backend), (INIT_READY, BACKEND_MMAP));
    assert_eq!((hdr.capacity, hdr.bump, hdr.free_top), (4096, 48, u64::MAX));
    assert_eq!((hdr.root, hdr._pad), (0, 0));
    let root = root_handle(&mut mem).unwrap();
    put_key_scalar(&mut mem, root, "k", &Scalar::Int(3)).unwrap();
    // attaching leaves everything as it is
    let (run, _) = attach_mmap("tok");
    let (run, _) = run.map_shm(Answer::Opened(3));
    let (run, _) = run.map_shm(Answer::Found(Some(4096)));
    let (run, action) = run.map_shm(Answer::Mapped(Some(0x6000)));
    let again = match action {
        Action::Done(region) => region,
        other => panic!("{:?}", other),
    };
    assert_eq!(again.capacity, region.capacity);
    assert!(run.finish(&mut mem, &again));
    assert_eq!(root_handle(&mut mem), Some(root));
    assert!(matches!(get_key(&mut mem, root, "k"), Ok(RVal::Int(3))));
}

#[test]
fn small_regions_get_a_size_of_their_own() {
    let (run, _) = create_mmap("tok", 63);
    assert_eq!(run.size, 1 << 20);
    let (run, _) = create_mmap("tok", 64);
    assert_eq!(run.size, 64);
}

#[test]
fn attaching_finds_the_size() {
    let (run, action) = attach_mmap("tok");
    assert!(
        matches!(action, Action::Open { name, create: false } if name == "/shared_nothing_tok")
    );
    let (run, action) = run.map_shm(Answer::Opened(3));
    assert!(matches!(action, Action::Stat { fd: 3 }));
    let (run, action) = run.map_shm(Answer::Found(Some(8192)));
    assert!(matches!(action, Action::MapPages { fd: 3, size: 8192 }));
    let (_, action) = run.map_shm(Answer::Mapped(Some(0x6000)));
    assert!(matches!(action, Action::Done(region) if region.capacity == 8192 && region.fd == 3));
}

fn failure(action: Action) -> (Context, Option<i32>, bool) {
    match action {
        Action::Fail(f) => (f.context, f.close, f.close_first),
        other => panic!("{:?}", other),
    }
}

#[test]
fn failures() {
    let (run, _) = create_mmap("tok", 64);
    assert_eq!(failure(run.map_shm(Answer::Opened(-1)).1), (Context::Create, None, true));
    let (run, _) = create_mmap("tok", 64);
    let (run, _) = run.map_shm(Answer::Opened(5));
    assert_eq!(failure(run.map_shm(Answer::Resized(false)).1), (Context::Create, Some(5), true));
    let (run, _) = create_mmap("tok", 64);
    let (run, _) = run.map_shm(Answer::Opened(5));
    let (run, _) = run.map_shm(Answer::Resized(true));
    assert_eq!(failure(run.map_shm(Answer::Mapped(None)).1), (Context::Create, Some(5), true));
    let (run, _) = attach_mmap("tok");
    assert_eq!(failure(run.map_shm(Answer::Opened(-1)).1), (Context::Open, None, false));
    let (run, _) = attach_mmap("tok");
    let (run, _) = run.map_shm(Answer::Opened(5));
    assert_eq!(failure(run.map_shm(Answer::Found(None)).1), (Context::Stat, Some(5), false));
    let (run, _) = attach_mmap("tok");
    let (run, _) = run.map_shm(Answer::Opened(5));
    let (run, _) = run.map_shm(Answer::Found(Some(64)));
    assert_eq!(failure(run.map_shm(Answer::Mapped(None)).1), (Context::Attach, Some(5), false));
    assert_eq!(failure(create_mmap("a/b", 64).1), (Context::Create, None, true));
    assert!(matches!(attach_mmap("a/b").1, Action::Refuse(IdError::NotAToken)));
    assert_eq!(os_error(Context::Create, "no such file"), "mmap create: no such file");
    assert_eq!(os_error(Context::Open, "x"), "shm_open attach: x");
    assert_eq!(os_error(Context::Stat, "x"), "fstat: x");
    assert_eq!(os_error(Context::Attach, "x"), "mmap attach: x");
}

#[test]
fn names_are_removed_once() {
    let mapped = MappedRegion {
        base: 4096,
        capacity: 64,
        fd: 3,
        name: Some("/shared_nothing_t".to_string()),
    };
    assert_eq!(mapped.teardown(), (Some((4096, 64)), Some(3)));
    let mut region = SharedRegion::from_mapped("t".to_string(), mapped);
    assert_eq!(region.id(), "t");
    assert_eq!(region.close(), Some("/shared_nothing_t".to_string()));
    assert_eq!(region.close(), None);
    assert_eq!(region.base(), 4096);
    let empty = MappedRegion { base: 0, capacity: 0, fd: -1, name: None };
    assert_eq!(empty.teardown(), (None, None));
}
