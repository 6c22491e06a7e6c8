//! Regions that are created, and reopened by their id.
//!
//! As in `exchange`, the laws speak of the calls themselves.
use crate::backend::{
    attach_mmap, create_mmap, os_error, shm_path, Action, Answer, Context, IdError, MapRun,
    MappedRegion,
};
use crate::js::ApiError;
use crate::laws::law_created_region;
use crate::layout::wf;
use crate::memory::Memory;
use crate::region::{AttachOpts, CreateOpts, SharedRegion};
use crate::text::{hex, hex_digit, to_hex};
use vstd::prelude::*;
use vstd::utf8::encode_utf8;

verus! {

// Ids.

/// `c` is one of the ASCII letters and digits.
pub open spec fn plain(c: char) -> bool {
    '0' <= c <= '9' || 'A' <= c <= 'Z' || 'a' <= c <= 'z'
}

/// The text can be an id: a short token of letters and digits.
pub open spec fn valid_id(token: Seq<char>) -> bool {
    &&& token.len() > 0
    &&& encode_utf8(token).len() <= 60
    &&& forall|i: int| 0 <= i < token.len() ==> plain(#[trigger] token[i])
}

/// A short token of letters and digits is an id, and nothing else is. The name of its shared memory
/// is made of the whole of it. What is wrong with a text that is no id is a zero in it, unless it
/// is no token at all: too long, or with a slash.
pub proof fn law_name_of_id(token: &str, r: Result<String, IdError>)
    requires
        call_ensures(shm_path, (token,), r),
    ensures
        r is Ok <==> valid_id(token@),
        r matches Ok(name) ==> name@ == "/shared_nothing_"@ + token@,
        r matches Err(e) ==> (e == IdError::HasZero <==> token@.contains('\0') && !token@.contains(
            '/',
        ) && encode_utf8(token@).len() <= 60),
{
    let s = token@;
    if valid_id(s) {
        assert forall|i: int| 0 <= i < s.len() implies s[i] != '/' && s[i] != '\0' by {
            assert(plain(s[i]));
        }
        assert(!s.contains('/') && !s.contains('\0'));
        assert forall|i: int| 0 <= i < s.len() implies crate::text::letter_or_digit(
            #[trigger] s[i],
        ) by {
            assert(plain(s[i]));
        }
    } else if r is Ok {
        assert forall|i: int| 0 <= i < s.len() implies plain(#[trigger] s[i]) by {
            assert(crate::text::letter_or_digit(s[i]));
        }
    }
}

/// Different ids have different names: nobody who attaches to one region is given another.
pub proof fn law_names_differ(
    a: &str,
    b: &str,
    r: Result<String, IdError>,
    q: Result<String, IdError>,
)
    requires
        call_ensures(shm_path, (a,), r),
        call_ensures(shm_path, (b,), q),
        r is Ok,
        q is Ok,
        r->Ok_0@ == q->Ok_0@,
    ensures
        a@ == b@,
{
    law_name_of_id(a, r);
    law_name_of_id(b, q);
    let start = "/shared_nothing_"@;
    let k = start.len() as int;
    assert((start + a@).skip(k) =~= a@);
    assert((start + b@).skip(k) =~= b@);
}

/// What a hexadecimal digit stands for.
pub open spec fn digit_value(c: char) -> int {
    if c <= '9' {
        c as int - '0' as int
    } else {
        c as int - 'a' as int + 10
    }
}

/// `c` is a hexadecimal digit.
pub open spec fn is_hex_digit(c: char) -> bool {
    '0' <= c <= '9' || 'a' <= c <= 'f'
}

/// The number that the digits stand for, the highest first.
pub open spec fn number_of(digits: Seq<char>) -> int
    decreases digits.len(),
{
    if digits.len() == 0 {
        0
    } else {
        16 * number_of(digits.drop_last()) + digit_value(digits.last())
    }
}

proof fn lemma_digit(d: nat)
    requires
        d < 16,
    ensures
        is_hex_digit(hex_digit(d)),
        digit_value(hex_digit(d)) == d,
        d > 0 ==> hex_digit(d) != '0',
{
}

proof fn lemma_hex(n: nat)
    ensures
        number_of(hex(n)) == n,
        hex(n).len() > 0,
        forall|i: int| 0 <= i < hex(n).len() ==> is_hex_digit(#[trigger] hex(n)[i]),
        n > 0 ==> hex(n)[0] != '0',
        n < 16 ==> hex(n).len() == 1,
    decreases n,
{
    if n < 16 {
        lemma_digit(n);
        assert(hex(n).drop_last() =~= Seq::<char>::empty());
        assert(number_of(hex(n).drop_last()) == 0);
    } else {
        lemma_hex(n / 16);
        lemma_digit(n % 16);
        assert(hex(n).drop_last() =~= hex(n / 16));
    }
}

/// A number that is written down in hexadecimal is the number that the digits stand for. There are
/// no more digits than it takes.
pub proof fn law_hexadecimal(n: u128, r: String)
    requires
        call_ensures(to_hex, (n,), r),
    ensures
        number_of(r@) == n,
        r@.len() > 0,
        forall|i: int| 0 <= i < r@.len() ==> is_hex_digit(#[trigger] r@[i]),
        r@.len() > 1 ==> r@[0] != '0',
{
    lemma_hex(n as nat);
}

/// The id and the size of a region that is to be created are what was asked for. Without an id, the
/// time is the id: regions that are created at different times have different ids. Without a size,
/// it is one mebibyte. Only mapped memory can be created, which is the default.
pub proof fn law_create_as_asked(
    opts: CreateOpts,
    nanos: u128,
    r: Result<(String, u64), ApiError>,
)
    requires
        call_ensures(SharedRegion::create, (opts, nanos), r),
    ensures
        r is Ok <==> (opts.backend matches Some(name) ==> name@ == "mmap"@),
        r is Err ==> r->Err_0 == ApiError::SabCreated,
        r matches Ok((token, size)) ==> {
            &&& opts.size matches Some(n) ==> size == n
            &&& opts.size is None ==> size == 0x10_0000
            &&& if opts.id is Some && opts.id->Some_0@.len() > 0 {
                token@ == opts.id->Some_0@
            } else {
                &&& number_of(token@) == nanos
                &&& forall|i: int| 0 <= i < token@.len() ==> is_hex_digit(#[trigger] token@[i])
            }
        },
{
    lemma_hex(nanos as nat);
}

/// Whoever attaches asks for the id that was handed over. Only mapped memory can be attached to,
/// which is the default.
pub proof fn law_attach_as_asked(opts: AttachOpts, id: String, r: Result<String, ApiError>)
    requires
        call_ensures(SharedRegion::attach, (opts, id), r),
    ensures
        r is Ok <==> (opts.backend matches Some(name) ==> name@ == "mmap"@),
        r is Err ==> r->Err_0 == ApiError::SabAttached,
        r matches Ok(same) ==> same@ == id@,
{
}

// Mapping.

/// A region of `n` bytes is what was asked for with `size`: as many bytes, unless these are too few
/// for a region, which then gets one mebibyte. It is never smaller than asked for.
pub open spec fn large_enough(size: u64, n: u64) -> bool {
    &&& size >= 64 ==> n == size
    &&& size < 64 ==> n == 0x10_0000
    &&& n >= size
}

/// Creating a region of `size` bytes, if the system grants what it is asked for: shared memory that
/// did not exist is opened under the name of the id, is given that size, and is mapped in that
/// size. The region has that many bytes; it is never smaller than asked for.
pub proof fn law_create_maps_what_is_asked(
    token: &str,
    size: u64,
    fd: i32,
    base: u64,
    r0: (MapRun, Action),
    r1: (MapRun, Action),
    r2: (MapRun, Action),
    r3: (MapRun, Action),
)
    requires
        valid_id(token@),
        fd >= 0,
        call_ensures(create_mmap, (token, size), r0),
        call_ensures(MapRun::map_shm, (r0.0, Answer::Opened(fd)), r1),
        call_ensures(MapRun::map_shm, (r1.0, Answer::Resized(true)), r2),
        call_ensures(MapRun::map_shm, (r2.0, Answer::Mapped(Some(base))), r3),
    ensures
        r0.1 matches Action::Open { name, create } && create && name@ == "/shared_nothing_"@
            + token@,
        r1.1 matches Action::Resize { fd: f, size: n } && f == fd && large_enough(size, n),
        r2.1 matches Action::MapPages { fd: f, size: n } && f == fd && large_enough(size, n),
        r3.1 matches Action::Done(region) && region.base == base && region.fd == fd
            && large_enough(size, region.capacity) && (region.name matches Some(name) && name@
            == "/shared_nothing_"@ + token@),
        r3.0.create,
        r3.0.stage is Over,
{
    lemma_no_id_error(token@);
}

/// Attaching to a region, if the system grants what it is asked for: shared memory that exists is
/// opened under the name of the id, and is mapped in the size that it has.
pub proof fn law_attach_maps_what_is_there(
    token: &str,
    size: u64,
    fd: i32,
    base: u64,
    r0: (MapRun, Action),
    r1: (MapRun, Action),
    r2: (MapRun, Action),
    r3: (MapRun, Action),
)
    requires
        valid_id(token@),
        fd >= 0,
        call_ensures(attach_mmap, (token,), r0),
        call_ensures(MapRun::map_shm, (r0.0, Answer::Opened(fd)), r1),
        call_ensures(MapRun::map_shm, (r1.0, Answer::Found(Some(size))), r2),
        call_ensures(MapRun::map_shm, (r2.0, Answer::Mapped(Some(base))), r3),
    ensures
        r0.1 matches Action::Open { name, create } && !create && name@ == "/shared_nothing_"@
            + token@,
        r1.1 matches Action::Stat { fd: f } && f == fd,
        r2.1 matches Action::MapPages { fd: f, size: n } && f == fd && n == size,
        r3.1 matches Action::Done(region) && region.base == base && region.fd == fd
            && region.capacity == size && (region.name matches Some(name) && name@
            == "/shared_nothing_"@ + token@),
        !r3.0.create,
        r3.0.stage is Over,
{
    lemma_no_id_error(token@);
}

proof fn lemma_no_id_error(s: Seq<char>)
    requires
        valid_id(s),
    ensures
        crate::backend::id_error(s) is None,
{
    assert forall|i: int| 0 <= i < s.len() implies s[i] != '/' && s[i] != '\0'
        && crate::text::letter_or_digit(#[trigger] s[i]) by {
        assert(plain(s[i]));
    }
    assert(!s.contains('/') && !s.contains('\0'));
}

/// The call has ended with a failure in `context`, and says that the descriptor `close` is to be
/// closed: `first`, or after the system has been asked for the reason.
pub open spec fn ends(
    r: (MapRun, Action),
    context: Context,
    close: Option<i32>,
    first: bool,
) -> bool {
    &&& r.0.stage is Over
    &&& r.1 matches Action::Fail(f) && f.context == context && f.close == close && f.close_first
        == first
}

/// Whenever the system refuses something, creating ends, and whatever descriptor was opened is
/// closed, at once. A text that is no id is refused at once.
pub proof fn law_create_fails_cleanly(
    token: &str,
    size: u64,
    fd: i32,
    r0: (MapRun, Action),
    r1: (MapRun, Action),
    r2: (MapRun, Action),
    not_sized: (MapRun, Action),
    not_mapped: (MapRun, Action),
)
    requires
        call_ensures(create_mmap, (token, size), r0),
        call_ensures(MapRun::map_shm, (r0.0, Answer::Opened(fd)), r1),
        call_ensures(MapRun::map_shm, (r1.0, Answer::Resized(true)), r2),
        call_ensures(MapRun::map_shm, (r1.0, Answer::Resized(false)), not_sized),
        call_ensures(MapRun::map_shm, (r2.0, Answer::Mapped(None)), not_mapped),
    ensures
        !valid_id(token@) ==> ends(r0, Context::Create, None, true),
        valid_id(token@) && fd < 0 ==> ends(r1, Context::Create, None, true),
        valid_id(token@) && fd >= 0 ==> ends(not_sized, Context::Create, Some(fd), true),
        valid_id(token@) && fd >= 0 ==> ends(not_mapped, Context::Create, Some(fd), true),
{
    if valid_id(token@) {
        lemma_no_id_error(token@);
    } else {
        lemma_id_error(token@);
    }
}

proof fn lemma_id_error(s: Seq<char>)
    requires
        !valid_id(s),
    ensures
        crate::backend::id_error(s) is Some,
{
    if crate::backend::id_error(s) is None {
        assert forall|i: int| 0 <= i < s.len() implies plain(#[trigger] s[i]) by {
            assert(crate::text::letter_or_digit(s[i]));
        }
    }
}

/// Whenever the system refuses something, attaching ends, and whatever descriptor was opened is
/// closed, once it is known why. A text that is no id is refused at once, and it is said what is
/// wrong with it.
pub proof fn law_attach_fails_cleanly(
    token: &str,
    size: u64,
    fd: i32,
    named: Result<String, IdError>,
    r0: (MapRun, Action),
    r1: (MapRun, Action),
    r2: (MapRun, Action),
    not_found: (MapRun, Action),
    not_mapped: (MapRun, Action),
)
    requires
        call_ensures(shm_path, (token,), named),
        call_ensures(attach_mmap, (token,), r0),
        call_ensures(MapRun::map_shm, (r0.0, Answer::Opened(fd)), r1),
        call_ensures(MapRun::map_shm, (r1.0, Answer::Found(Some(size))), r2),
        call_ensures(MapRun::map_shm, (r1.0, Answer::Found(None)), not_found),
        call_ensures(MapRun::map_shm, (r2.0, Answer::Mapped(None)), not_mapped),
    ensures
        named matches Err(e) ==> r0.1 == Action::Refuse(e) && r0.0.stage is Over,
        named is Ok && fd < 0 ==> ends(r1, Context::Open, None, false),
        named is Ok && fd >= 0 ==> ends(not_found, Context::Stat, Some(fd), false),
        named is Ok && fd >= 0 ==> ends(not_mapped, Context::Attach, Some(fd), false),
{
}

/// What users are told: what failed, and why.
pub proof fn law_failure_messages(
    id: IdError,
    wrong: &'static str,
    context: Context,
    os: &str,
    message: String,
)
    requires
        call_ensures(IdError::message, (&id,), wrong),
        call_ensures(os_error, (context, os), message),
    ensures
        match id {
            IdError::NotAToken => wrong@ == "invalid id: must be a short alphanumeric token"@,
            IdError::HasZero => wrong@ == "invalid id"@,
        },
        match context {
            Context::Create => message@ == "mmap create"@ + ": "@ + os@,
            Context::Open => message@ == "shm_open attach"@ + ": "@ + os@,
            Context::Stat => message@ == "fstat"@ + ": "@ + os@,
            Context::Attach => message@ == "mmap attach"@ + ": "@ + os@,
        },
{
}

// Regions.

/// A region that has been created is as large as it was asked to be, and has the id that was asked
/// for; it lies where it was mapped. Closing it gives up the very name that was opened, once.
pub proof fn law_created_region_is_as_asked(
    opts: CreateOpts,
    nanos: u128,
    asked: Result<(String, u64), ApiError>,
    token: &str,
    fd: i32,
    base: u64,
    r0: (MapRun, Action),
    r1: (MapRun, Action),
    r2: (MapRun, Action),
    r3: (MapRun, Action),
    region: SharedRegion,
    capacity: u64,
    at: u64,
    id: String,
)
    requires
        call_ensures(SharedRegion::create, (opts, nanos), asked),
        asked is Ok,
        token@ == asked->Ok_0.0@,
        valid_id(token@),
        fd >= 0,
        call_ensures(create_mmap, (token, asked->Ok_0.1), r0),
        call_ensures(MapRun::map_shm, (r0.0, Answer::Opened(fd)), r1),
        call_ensures(MapRun::map_shm, (r1.0, Answer::Resized(true)), r2),
        call_ensures(MapRun::map_shm, (r2.0, Answer::Mapped(Some(base))), r3),
        call_ensures(SharedRegion::from_mapped, (asked->Ok_0.0, r3.1->Done_0), region),
        call_ensures(SharedRegion::capacity, (&region,), capacity),
        call_ensures(SharedRegion::base, (&region,), at),
        call_ensures(SharedRegion::id, (&region,), id),
    ensures
        capacity == match opts.size {
            Some(n) => if n >= 64 {
                n as int
            } else {
                0x10_0000
            },
            None => 0x10_0000,
        },
        at == base,
        opts.id matches Some(given) ==> given@.len() > 0 ==> id@ == given@,
        id@ == token@,
        region.mapped == Some(r3.1->Done_0),
{
    law_create_as_asked(opts, nanos, asked);
    law_create_maps_what_is_asked(token, asked->Ok_0.1, fd, base, r0, r1, r2, r3);
}

/// Whoever attaches with the id of a region that was created opens the shared memory that was
/// created for it, and no other.
pub proof fn law_attach_reopens(
    token: &str,
    size: u64,
    other: &str,
    created: (MapRun, Action),
    attached: (MapRun, Action),
)
    requires
        valid_id(token@),
        valid_id(other@),
        call_ensures(create_mmap, (token, size), created),
        call_ensures(attach_mmap, (other,), attached),
    ensures
        created.1 is Open,
        attached.1 is Open,
        created.1->Open_create,
        !attached.1->Open_create,
        token@ == other@ <==> created.1->Open_name@ == attached.1->Open_name@,
{
    lemma_no_id_error(token@);
    lemma_no_id_error(other@);
    let start = "/shared_nothing_"@;
    let k = start.len() as int;
    assert((start + token@).skip(k) =~= token@);
    assert((start + other@).skip(k) =~= other@);
}

/// Closing a region gives up the name of its shared memory, once; the region stays what it is. A
/// region in a buffer has no name.
pub proof fn law_closed_once(
    m: &mut SharedRegion,
    n: &mut SharedRegion,
    first: Option<String>,
    second: Option<String>,
)
    requires
        call_ensures(SharedRegion::close, (m,), first),
        *final(m) == *old(n),
        call_ensures(SharedRegion::close, (n,), second),
    ensures
        first == match old(m).mapped {
            Some(mapped) => mapped.name,
            None => None,
        },
        second is None,
        final(n).base == old(m).base,
        final(n).capacity == old(m).capacity,
        final(n).id == old(m).id,
        final(n).mapped is Some <==> old(m).mapped is Some,
        old(m).mapped matches Some(before) ==> (final(n).mapped matches Some(later) && later.base
            == before.base && later.capacity == before.capacity && later.fd == before.fd),
{
}

/// What is unmapped and closed in the end is what was mapped and opened.
pub proof fn law_teardown(region: MappedRegion, parts: (Option<(u64, u64)>, Option<i32>))
    requires
        call_ensures(MappedRegion::teardown, (&region,), parts),
    ensures
        region.base > 0 ==> parts.0 == Some((region.base, region.capacity)),
        region.base == 0 ==> parts.0 is None,
        region.fd >= 0 ==> parts.1 == Some(region.fd),
        region.fd < 0 ==> parts.1 is None,
{
}

/// The region is ready and empty, says what kind of memory it lies in, and has `capacity` bytes. It
/// has no root and no freed blocks, and nobody holds the lock of the allocator.
pub open spec fn ready_and_empty(ws: Seq<u64>, backend: int, capacity: u64) -> bool {
    &&& wf(ws)
    &&& ws[0] == 2 + 0x1_0000_0000 * backend
    &&& ws[1] == capacity
    &&& ws[2] == 48
    &&& ws[3] == u64::MAX
    &&& ws[4] == 0
    &&& ws[5] == 0
}

/// A region that was created is made ready for use, with all of its bytes; one that was attached to
/// is left as it is.
pub proof fn law_finished_region<M: Memory>(
    run: MapRun,
    m: &mut M,
    region: MappedRegion,
    ready: bool,
)
    requires
        call_ensures(MapRun::finish::<M>, (&run, m, &region), ready),
        final(m).undisturbed(),
        forall|i: int| 0 <= i < old(m).words().len() ==> #[trigger] old(m).words()[i] == 0,
        48 <= region.capacity <= 8 * old(m).words().len(),
        region.capacity < 0x0100_0000_0000_0000,
    ensures
        ready,
        run.create ==> ready_and_empty(final(m).words(), 1, region.capacity),
        !run.create ==> final(m).words() == old(m).words(),
{
    law_created_region(old(m).words(), region.capacity);
    lemma_fresh_words(old(m).words(), region.capacity, 1);
}

/// A region that is ready is left as it is, whoever opens it again.
pub proof fn law_ready_region_is_left<M: Memory>(
    run: MapRun,
    region: MappedRegion,
    base: u64,
    len: u64,
    m: &mut M,
    n: &mut M,
    ready: bool,
    r: Result<SharedRegion, ApiError>,
)
    requires
        old(m).words().len() > 0,
        old(m).words()[0] % 0x1_0000_0000 == 2,
        call_ensures(MapRun::finish::<M>, (&run, m, &region), ready),
        *old(n) == *final(m),
        base > 0,
        base % 8 == 0,
        call_ensures(SharedRegion::wrap::<M>, (n, base, len), r),
        final(n).undisturbed(),
    ensures
        ready,
        r is Ok,
        final(m).words() == old(m).words(),
        final(n).words() == old(m).words(),
{
}

/// A region in a buffer lies where the buffer lies, is as large as that, and is ready for use; it
/// has no name to be attached by. A buffer without memory, or one that does not begin at a word, is
/// refused.
pub proof fn law_wrapped_region<M: Memory>(
    m: &mut M,
    base: u64,
    len: u64,
    r: Result<SharedRegion, ApiError>,
)
    requires
        call_ensures(SharedRegion::wrap::<M>, (m, base, len), r),
    ensures
        base == 0 ==> r == Err::<SharedRegion, ApiError>(ApiError::NoMemory),
        base > 0 && base % 8 != 0 ==> r == Err::<SharedRegion, ApiError>(ApiError::Unaligned),
        r matches Ok(region) ==> region.base == base && region.capacity == len && region.id@
            == "sab"@ && region.mapped is None,
        base > 0 && base % 8 == 0 && final(m).undisturbed() && 48 <= len <= 8 * old(m).words().len()
            && len < 0x0100_0000_0000_0000 && (forall|i: int|
            0 <= i < old(m).words().len() ==> #[trigger] old(m).words()[i] == 0) ==> r is Ok
            && ready_and_empty(final(m).words(), 2, len),
{
    let ws = old(m).words();
    if 48 <= len <= 8 * ws.len() && len < 0x0100_0000_0000_0000 && (forall|i: int|
        0 <= i < ws.len() ==> #[trigger] ws[i] == 0) {
        crate::laws::law_new_region(ws, len, 2);
        let xs = crate::arena::initialized(ws, len, 2);
        lemma_fresh_words(ws, len, 2);
    }
}

/// The header of a region that has been initialized.
proof fn lemma_fresh_words(ws: Seq<u64>, capacity: u64, backend: u32)
    requires
        8 * ws.len() >= 48,
    ensures
        ({
            let xs = crate::arena::initialized(ws, capacity, backend);
            &&& xs[0] == 2 + 0x1_0000_0000 * backend
            &&& xs[1] == capacity
            &&& xs[2] == 48
            &&& xs[3] == u64::MAX
            &&& xs[4] == 0
            &&& xs[5] == 0
        }),
{
}

} // verus!
