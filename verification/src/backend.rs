//! Named shared memory as the backing of a region.
//!
//! Opening, sizing and mapping shared memory is the business of the operating system.
//! What to ask of it next, given what it answered, and what to make of a failure, is
//! decided here.
use crate::arena::{
    ensure_init, init_seen, initialized, ready_seen, region_header, INIT_FRESH, INIT_READY,
};
use crate::memory::Memory;
use crate::text::{alphanumeric, contains, is_alphanumeric, joined};
use crate::trace::{idle, released};
use vstd::prelude::*;
use vstd::utf8::encode_utf8;

verus! {

/// A mapped shared-memory region.
#[derive(Debug)]
pub struct MappedRegion {
    pub base: u64,
    pub capacity: u64,
    pub fd: i32,
    /// The name of the shared memory, until it is removed.
    pub name: Option<String>,
}

impl MappedRegion {
    /// Takes the name, which is to be removed so that nobody can attach any more.
    /// Existing mappings stay valid. Nothing is left to remove the second time.
    pub fn unlink_backing(&mut self) -> (name: Option<String>)
        ensures
            name == old(self).name,
            final(self).name is None,
            final(self).base == old(self).base,
            final(self).capacity == old(self).capacity,
            final(self).fd == old(self).fd,
    {
        self.name.take()
    }

    /// What is to be unmapped, from where and how much, and which descriptor is to be
    /// closed when the region is no longer used. The name stays: others may use it.
    pub fn teardown(&self) -> (parts: (Option<(u64, u64)>, Option<i32>))
        ensures
            parts.0 == if self.base != 0 {
                Some((self.base, self.capacity))
            } else {
                None
            },
            parts.1 == if self.fd >= 0 {
                Some(self.fd)
            } else {
                None
            },
    {
        let pages: Option<(u64, u64)> = if self.base != 0 {
            Some((self.base, self.capacity))
        } else {
            None
        };
        let fd: Option<i32> = if self.fd >= 0 {
            Some(self.fd)
        } else {
            None
        };
        (pages, fd)
    }
}

/// What is wrong with an id.
#[derive(Debug, Clone, Copy, PartialEq, Eq, Structural)]
pub enum IdError {
    /// It is empty, too long, or contains something else than letters and digits.
    NotAToken,
    /// It contains a zero.
    HasZero,
}

impl IdError {
    pub open spec fn text(self) -> Seq<char> {
        match self {
            IdError::NotAToken => "invalid id: must be a short alphanumeric token"@,
            IdError::HasZero => "invalid id"@,
        }
    }

    /// The message for users.
    pub fn message(&self) -> (text: &'static str)
        ensures
            text@ == self.text(),
    {
        match self {
            IdError::NotAToken => "invalid id: must be a short alphanumeric token",
            IdError::HasZero => "invalid id",
        }
    }
}

/// The name of the shared memory for an id.
pub open spec fn shm_name(token: Seq<char>) -> Seq<char> {
    "/shared_nothing_"@ + token
}

/// What is wrong with the id, if anything is: an id is a short alphanumeric token.
pub open spec fn id_error(token: Seq<char>) -> Option<IdError> {
    if token.len() == 0 || token.contains('/') || encode_utf8(token).len() > 60 {
        Some(IdError::NotAToken)
    } else if token.contains('\0') {
        Some(IdError::HasZero)
    } else if !alphanumeric(token) {
        Some(IdError::NotAToken)
    } else {
        None
    }
}

/// The name of the shared memory for an id.
pub fn shm_path(token: &str) -> (r: Result<String, IdError>)
    ensures
        match id_error(token@) {
            Some(e) => r == Err::<String, IdError>(e),
            None => r matches Ok(name) && name@ == shm_name(token@),
        },
{
    if token.is_empty() || token.as_bytes().len() > 60 || contains(token, '/') {
        return Err(IdError::NotAToken);
    }
    if contains(token, '\0') {
        return Err(IdError::HasZero);
    }
    if !is_alphanumeric(token) {
        return Err(IdError::NotAToken);
    }
    Ok(joined("/shared_nothing_", token))
}

/// What failed.
#[derive(Debug, Clone, Copy, PartialEq, Eq, Structural)]
pub enum Context {
    Create,
    Open,
    Stat,
    Attach,
}

impl Context {
    pub open spec fn text(self) -> Seq<char> {
        match self {
            Context::Create => "mmap create"@,
            Context::Open => "shm_open attach"@,
            Context::Stat => "fstat"@,
            Context::Attach => "mmap attach"@,
        }
    }

    pub fn message(&self) -> (text: &'static str)
        ensures
            text@ == self.text(),
    {
        match self {
            Context::Create => "mmap create",
            Context::Open => "shm_open attach",
            Context::Stat => "fstat",
            Context::Attach => "mmap attach",
        }
    }
}

/// The message for a failure that the system explains as `os`.
pub fn os_error(context: Context, os: &str) -> (message: String)
    ensures
        message@ == context.text() + ": "@ + os@,
{
    let start: String = joined(context.message(), ": ");
    joined(start.as_str(), os)
}

/// What failed, and which descriptor is to be closed: before the system is asked for the
/// reason, or afterwards.
#[derive(Debug, Clone, Copy, PartialEq, Eq, Structural)]
pub struct Failure {
    pub context: Context,
    pub close: Option<i32>,
    pub close_first: bool,
}

/// What to do next.
#[derive(Debug)]
pub enum Action {
    /// Open the shared memory of this name, for reading and writing; `create` it, and fail
    /// if it exists.
    Open { name: String, create: bool },
    /// Give the shared memory its size.
    Resize { fd: i32, size: u64 },
    /// Find out its size.
    Stat { fd: i32 },
    /// Map that many bytes of it.
    MapPages { fd: i32, size: u64 },
    Done(MappedRegion),
    Fail(Failure),
    Refuse(IdError),
}

/// What the system answered.
#[derive(Debug, Clone, Copy)]
pub enum Answer {
    /// The descriptor; negative if it failed.
    Opened(i32),
    Resized(bool),
    Found(Option<u64>),
    Mapped(Option<u64>),
}

/// How far the mapping has come.
#[derive(Debug, Clone, Copy, PartialEq, Eq, Structural)]
pub enum Stage {
    Opening,
    Resizing { fd: i32 },
    Statting { fd: i32 },
    Mapping { fd: i32 },
    Over,
}

/// A mapping under way.
#[derive(Debug)]
pub struct MapRun {
    pub token: String,
    pub create: bool,
    pub size: u64,
    pub stage: Stage,
}

/// The size of a region that is created; one that is too small gets a size of its own.
pub open spec fn region_size(size: u64) -> u64 {
    if size < 64 {
        0x10_0000
    } else {
        size
    }
}

/// The name of the region of the run.
fn run_name(token: &str) -> (name: String)
    ensures
        name@ == shm_name(token@),
{
    joined("/shared_nothing_", token)
}

/// Starts to create a region of `size` bytes.
pub fn create_mmap(token: &str, size: u64) -> (r: (MapRun, Action))
    ensures
        r.0.token@ == token@,
        r.0.create,
        r.0.size == region_size(size),
        if id_error(token@) is Some {
            &&& r.0.stage is Over
            &&& r.1 == Action::Fail(
                Failure { context: Context::Create, close: None, close_first: true },
            )
        } else {
            &&& r.0.stage is Opening
            &&& r.1 matches Action::Open { name, create } && name@ == shm_name(token@) && create
        },
{
    let size: u64 = if size < 64 {
        0x10_0000
    } else {
        size
    };
    match shm_path(token) {
        Ok(name) => (
            MapRun { token: token.to_owned(), create: true, size, stage: Stage::Opening },
            Action::Open { name, create: true },
        ),
        Err(_) => (
            MapRun { token: token.to_owned(), create: true, size, stage: Stage::Over },
            Action::Fail(Failure { context: Context::Create, close: None, close_first: true }),
        ),
    }
}

/// Starts to attach to an existing region.
pub fn attach_mmap(token: &str) -> (r: (MapRun, Action))
    ensures
        r.0.token@ == token@,
        !r.0.create,
        match id_error(token@) {
            Some(e) => r.0.stage is Over && r.1 == Action::Refuse(e),
            None => r.0.stage is Opening && (r.1 matches Action::Open { name, create } && name@
                == shm_name(token@) && !create),
        },
{
    match shm_path(token) {
        Ok(name) => (
            MapRun { token: token.to_owned(), create: false, size: 0, stage: Stage::Opening },
            Action::Open { name, create: false },
        ),
        Err(e) => (
            MapRun { token: token.to_owned(), create: false, size: 0, stage: Stage::Over },
            Action::Refuse(e),
        ),
    }
}

impl MapRun {
    /// The answer is one to what was asked.
    pub open spec fn awaits(self, answer: Answer) -> bool {
        match self.stage {
            Stage::Opening => answer is Opened,
            Stage::Resizing { .. } => answer is Resized,
            Stage::Statting { .. } => answer is Found,
            Stage::Mapping { .. } => answer is Mapped,
            Stage::Over => false,
        }
    }

    /// The run goes on with this stage and this size.
    pub open spec fn goes_on(self, next: MapRun, stage: Stage, size: u64) -> bool {
        next.token == self.token && next.create == self.create && next.size == size && next.stage
            == stage
    }

    /// The run has ended with a failure; a descriptor that was open is closed.
    pub open spec fn fails(
        self,
        next: MapRun,
        action: Action,
        context: Context,
        close: Option<i32>,
    ) -> bool {
        &&& next.stage is Over
        &&& next.create == self.create
        &&& action == Action::Fail(Failure { context, close, close_first: self.create })
    }

    /// Takes the answer of the system, and says what to do next.
    pub fn map_shm(self, answer: Answer) -> (r: (MapRun, Action))
        requires
            self.awaits(answer),
        ensures
            match (self.stage, answer) {
                (Stage::Opening, Answer::Opened(fd)) => if fd < 0 {
                    self.fails(
                        r.0,
                        r.1,
                        if self.create {
                            Context::Create
                        } else {
                            Context::Open
                        },
                        None,
                    )
                } else if self.create {
                    self.goes_on(r.0, Stage::Resizing { fd }, self.size) && r.1
                        == (Action::Resize { fd, size: self.size })
                } else {
                    self.goes_on(r.0, Stage::Statting { fd }, self.size) && r.1 == (Action::Stat {
                        fd,
                    })
                },
                (Stage::Resizing { fd }, Answer::Resized(done)) => if done {
                    self.goes_on(r.0, Stage::Mapping { fd }, self.size) && r.1 == (Action::MapPages {
                        fd,
                        size: self.size,
                    })
                } else {
                    self.fails(r.0, r.1, Context::Create, Some(fd))
                },
                (Stage::Statting { fd }, Answer::Found(found)) => match found {
                    Some(size) => self.goes_on(r.0, Stage::Mapping { fd }, size) && r.1
                        == (Action::MapPages { fd, size }),
                    None => self.fails(r.0, r.1, Context::Stat, Some(fd)),
                },
                (Stage::Mapping { fd }, Answer::Mapped(mapped)) => match mapped {
                    Some(base) => {
                        &&& r.0.stage is Over
                        &&& r.0.create == self.create
                        &&& r.1 matches Action::Done(region) && region.base == base
                            && region.capacity == self.size && region.fd == fd && (
                        region.name matches Some(name) && name@ == shm_name(self.token@))
                    },
                    None => self.fails(
                        r.0,
                        r.1,
                        if self.create {
                            Context::Create
                        } else {
                            Context::Attach
                        },
                        Some(fd),
                    ),
                },
                _ => true,
            },
    {
        let create: bool = self.create;
        let size: u64 = self.size;
        let stage: Stage = self.stage;
        let token: String = self.token;
        match answer {
            Answer::Opened(fd) => {
                if fd < 0 {
                    let context: Context = if create {
                        Context::Create
                    } else {
                        Context::Open
                    };
                    let failure: Failure = Failure { context, close: None, close_first: create };
                    (MapRun { token, create, size, stage: Stage::Over }, Action::Fail(failure))
                } else if create {
                    (
                        MapRun { token, create, size, stage: Stage::Resizing { fd } },
                        Action::Resize { fd, size },
                    )
                } else {
                    (
                        MapRun { token, create, size, stage: Stage::Statting { fd } },
                        Action::Stat { fd },
                    )
                }
            },
            Answer::Resized(done) => {
                let fd: i32 = match stage {
                    Stage::Resizing { fd } => fd,
                    _ => -1,
                };
                if done {
                    (
                        MapRun { token, create, size, stage: Stage::Mapping { fd } },
                        Action::MapPages { fd, size },
                    )
                } else {
                    let failure: Failure = Failure {
                        context: Context::Create,
                        close: Some(fd),
                        close_first: create,
                    };
                    (MapRun { token, create, size, stage: Stage::Over }, Action::Fail(failure))
                }
            },
            Answer::Found(found) => {
                let fd: i32 = match stage {
                    Stage::Statting { fd } => fd,
                    _ => -1,
                };
                match found {
                    Some(size) => (
                        MapRun { token, create, size, stage: Stage::Mapping { fd } },
                        Action::MapPages { fd, size },
                    ),
                    None => {
                        let failure: Failure = Failure {
                            context: Context::Stat,
                            close: Some(fd),
                            close_first: create,
                        };
                        (MapRun { token, create, size, stage: Stage::Over }, Action::Fail(failure))
                    },
                }
            },
            Answer::Mapped(mapped) => {
                let fd: i32 = match stage {
                    Stage::Mapping { fd } => fd,
                    _ => -1,
                };
                match mapped {
                    Some(base) => {
                        let name: String = run_name(token.as_str());
                        let region: MappedRegion = MappedRegion {
                            base,
                            capacity: size,
                            fd,
                            name: Some(name),
                        };
                        (MapRun { token, create, size, stage: Stage::Over }, Action::Done(region))
                    },
                    None => {
                        let context: Context = if create {
                            Context::Create
                        } else {
                            Context::Attach
                        };
                        let failure: Failure = Failure {
                            context,
                            close: Some(fd),
                            close_first: create,
                        };
                        (MapRun { token, create, size, stage: Stage::Over }, Action::Fail(failure))
                    },
                }
            },
        }
    }

    /// Gets the region ready that the run has mapped, and that `mem` works on: one that was
    /// created is initialized, one that was there before is left as it is. `false` if it did not
    /// become ready.
    pub fn finish<M: Memory>(&self, mem: &mut M, region: &MappedRegion) -> (ready: bool)
        ensures
            final(mem).patience() <= old(mem).patience(),
            released(old(mem).trace(), final(mem).trace()),
            !ready ==> final(mem).patience() == 0 && idle(old(mem).trace(), final(mem).trace()),
            !self.create ==> ready && *final(mem) == *old(mem),
            self.create ==> init_seen(
                old(mem).trace(),
                final(mem).trace(),
                region.capacity,
                BACKEND_MMAP,
            ),
            self.create && ready ==> ready_seen(old(mem).trace(), final(mem).trace()),
            final(mem).undisturbed() ==> {
                let ws = old(mem).words();
                &&& old(mem).undisturbed()
                &&& ready == (!self.create || can_be_ready(ws))
                &&& final(mem).words() == finished(ws, self.create, region.capacity)
            },
    {
        if self.create {
            ensure_init(mem, region.capacity, BACKEND_MMAP)
        } else {
            true
        }
    }
}

/// The backend of regions in mapped memory.
pub const BACKEND_MMAP: u32 = 1;

/// The region is ready, or there is one to be made ready.
pub open spec fn can_be_ready(ws: Seq<u64>) -> bool {
    let state = region_header(ws).init_state;
    state == INIT_READY || state == INIT_FRESH && ws.len() > 0
}

/// `ws` once it has been mapped as a region of `capacity` bytes: what was created is initialized,
/// unless it is already.
pub open spec fn finished(ws: Seq<u64>, create: bool, capacity: u64) -> Seq<u64> {
    if create && region_header(ws).init_state == INIT_FRESH && ws.len() > 0 {
        initialized(ws, capacity, BACKEND_MMAP)
    } else {
        ws
    }
}

} // verus!
