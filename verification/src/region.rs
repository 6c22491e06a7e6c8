//! Regions, as users hold them.
use crate::arena::{
    ensure_init, init_seen, initialized, ready_seen, region_header, INIT_FRESH, INIT_READY,
};
use crate::backend::MappedRegion;
use crate::discipline::{builds, disciplined, gets_root, Op};
use crate::graph::{create_array, create_map, create_object};
use crate::js::ApiError;
use crate::layout::{kept, wf};
use crate::memory::{Event, Memory};
use crate::mutation::root_handle;
use crate::node::{container_seen, container_size, no_space, with_container, DEFAULT_CAP};
use crate::noderef::NodeRef;
use crate::tables::rooted;
use crate::text::{hex, to_hex};
use crate::trace::{idle, released};
use crate::value::{container_kind, kind_of, GraphError, KIND_ARRAY, KIND_MAP, KIND_OBJECT};
use vstd::prelude::*;

verus! {

/// How to create a region.
#[derive(Debug, Clone)]
pub struct CreateOpts {
    /// Size in bytes; one mebibyte if it is not given.
    pub size: Option<u32>,
    /// Short alphanumeric token that the name of the shared memory is made of.
    pub id: Option<String>,
    /// The backend: "mmap", which is the default, or "sab".
    pub backend: Option<String>,
}

/// How to attach to a region.
#[derive(Debug, Clone)]
pub struct AttachOpts {
    /// The backend of the region.
    pub backend: Option<String>,
}

/// A region: where it is, how large, and under which id it can be attached to.
#[derive(Debug)]
pub struct SharedRegion {
    pub base: u64,
    pub capacity: u64,
    pub id: String,
    /// The mapping, unless the region lies in a buffer.
    pub mapped: Option<MappedRegion>,
}

/// The backend is that of mapped memory.
pub open spec fn is_mmap(backend: Option<String>) -> bool {
    match backend {
        Some(name) => name@ == "mmap"@,
        None => true,
    }
}

fn mmap_backend(backend: &Option<String>) -> (r: bool)
    ensures
        r == is_mmap(*backend),
{
    match backend {
        Some(name) => *name == "mmap".to_owned(),
        None => true,
    }
}

/// The id of a region to be created: the one that is asked for, or one made from the time.
pub open spec fn token_for(id: Option<String>, nanos: u128) -> Seq<char> {
    match id {
        Some(id) => if id@.len() > 0 {
            id@
        } else {
            hex(nanos as nat)
        },
        None => hex(nanos as nat),
    }
}

/// What creating a container of kind `tag` gives: a reference to it.
pub open spec fn container_made(ws: Seq<u64>, base: u64, tag: u8, cap: u32) -> (
    Result<NodeRef, ApiError>,
    Seq<u64>,
) {
    match with_container(ws, tag, cap) {
        (Some(h), w) => (Ok(NodeRef { base, handle: h }), w),
        (None, w) => (Err(ApiError::CapacityExceeded), w),
    }
}

/// What creating a container of kind `tag` gave, from `t0` to `t1`, with so much `patience` left: a
/// reference to the container that the thread made, or an error if it has run out of patience or
/// has seen that there is no space.
pub open spec fn container_result(
    t0: Seq<Event>,
    t1: Seq<Event>,
    base: u64,
    tag: u8,
    cap: u32,
    r: Result<NodeRef, ApiError>,
    patience: nat,
) -> bool {
    match r {
        Ok(node) => node.base == base && container_seen(t0, t1, node.handle, tag, cap),
        Err(e) => e == ApiError::CapacityExceeded && (patience == 0 || no_space(
            t0,
            t1,
            container_size(tag, cap),
        )),
    }
}

/// A reference to a new container.
fn container_ref(base: u64, h: Option<u64>) -> (r: Result<NodeRef, ApiError>)
    ensures
        r == match h {
            Some(handle) => Ok(NodeRef { base, handle }),
            None => Err(ApiError::CapacityExceeded),
        },
{
    match h {
        Some(handle) => Ok(NodeRef { base, handle }),
        None => Err(ApiError::CapacityExceeded),
    }
}

impl SharedRegion {
    /// The id and the size of a region that is to be created, at `nanos` nanoseconds.
    pub fn create(opts: CreateOpts, nanos: u128) -> (r: Result<(String, u64), ApiError>)
        ensures
            !is_mmap(opts.backend) ==> r == Err::<(String, u64), ApiError>(ApiError::SabCreated),
            is_mmap(opts.backend) ==> (r matches Ok((token, size)) && token@ == token_for(
                opts.id,
                nanos,
            ) && size == match opts.size {
                Some(n) => n as u64,
                None => 0x10_0000,
            }),
    {
        if !mmap_backend(&opts.backend) {
            return Err(ApiError::SabCreated);
        }
        let size: u64 = match opts.size {
            Some(n) => n as u64,
            None => 0x10_0000,
        };
        let token: String = match opts.id {
            Some(id) => if id.as_str().is_empty() {
                to_hex(nanos)
            } else {
                id
            },
            None => to_hex(nanos),
        };
        Ok((token, size))
    }

    /// The id of a region that is to be attached to.
    pub fn attach(opts: AttachOpts, id: String) -> (r: Result<String, ApiError>)
        ensures
            r == if is_mmap(opts.backend) {
                Ok(id)
            } else {
                Err(ApiError::SabAttached)
            },
    {
        if mmap_backend(&opts.backend) {
            Ok(id)
        } else {
            Err(ApiError::SabAttached)
        }
    }

    /// The region with the id `id` that has been mapped.
    pub fn from_mapped(id: String, mapped: MappedRegion) -> (region: SharedRegion)
        ensures
            region.base == mapped.base,
            region.capacity == mapped.capacity,
            region.id == id,
            region.mapped == Some(mapped),
    {
        SharedRegion { base: mapped.base, capacity: mapped.capacity, id, mapped: Some(mapped) }
    }

    /// Backs a region with a buffer of `len` bytes at `base`, which `mem` works on.
    pub fn wrap<M: Memory>(mem: &mut M, base: u64, len: u64) -> (r: Result<SharedRegion, ApiError>)
        ensures
            final(mem).patience() <= old(mem).patience(),
            released(old(mem).trace(), final(mem).trace()),
            base == 0 || base % 8 != 0 ==> r is Err && *final(mem) == *old(mem),
            r matches Ok(region) ==> region.base == base && region.capacity == len && region.id@
                == "sab"@ && region.mapped is None,
            r matches Err(e) ==> e == if base == 0 {
                ApiError::NoMemory
            } else if base % 8 != 0 {
                ApiError::Unaligned
            } else {
                ApiError::Graph(GraphError::Busy)
            },
            base != 0 && base % 8 == 0 ==> init_seen(
                old(mem).trace(),
                final(mem).trace(),
                len,
                2,
            ) && if r is Ok {
                ready_seen(old(mem).trace(), final(mem).trace())
            } else {
                final(mem).patience() == 0 && idle(old(mem).trace(), final(mem).trace())
            },
            base != 0 && base % 8 == 0 && final(mem).undisturbed() ==> {
                let ws = old(mem).words();
                let state = region_header(ws).init_state;
                &&& old(mem).undisturbed()
                &&& r is Ok <==> state == INIT_READY || state == INIT_FRESH && ws.len() > 0
                &&& final(mem).words() == if state == INIT_FRESH && ws.len() > 0 {
                    initialized(ws, len, 2)
                } else {
                    ws
                }
            },
    {
        if base == 0 {
            return Err(ApiError::NoMemory);
        }
        if base % 8 != 0 {
            return Err(ApiError::Unaligned);
        }
        if ensure_init(mem, len, 2) {
            Ok(SharedRegion { base, capacity: len, id: "sab".to_owned(), mapped: None })
        } else {
            Err(ApiError::Graph(GraphError::Busy))
        }
    }

    /// The root container, an object.
    pub fn root<M: Memory>(&self, mem: &mut M) -> (r: Result<NodeRef, ApiError>)
        ensures
            final(mem).patience() <= old(mem).patience(),
            released(old(mem).trace(), final(mem).trace()),
            disciplined(Op::Nothing, old(mem).trace(), final(mem).trace()),
            r matches Ok(node) ==> {
                let t = final(mem).trace();
                &&& node.base == self.base
                &&& container_kind(kind_of(node.handle))
                &&& t.len() > old(mem).trace().len()
                &&& gets_root(t.last(), node.handle)
            },
            r matches Err(e) ==> e == ApiError::RootFull && (final(mem).patience() == 0 || no_space(
                old(mem).trace(),
                final(mem).trace(),
                container_size(KIND_OBJECT, DEFAULT_CAP),
            )),
            final(mem).undisturbed() ==> old(mem).undisturbed(),
            final(mem).undisturbed() && wf(old(mem).words()) ==> {
                let (root, xs) = rooted(old(mem).words());
                &&& final(mem).words() == xs
                &&& kept(old(mem).words(), xs)
                &&& r == match root {
                    Some(handle) => Ok(NodeRef { base: self.base, handle }),
                    None => Err(ApiError::RootFull),
                }
            },
    {
        match root_handle(mem) {
            Some(handle) => Ok(NodeRef { base: self.base, handle }),
            None => Err(ApiError::RootFull),
        }
    }

    /// Allocates an object.
    pub fn create_object<M: Memory>(&self, mem: &mut M, capacity: u32) -> (r: Result<
        NodeRef,
        ApiError,
    >)
        ensures
            final(mem).patience() <= old(mem).patience(),
            released(old(mem).trace(), final(mem).trace()),
            builds(old(mem).trace(), final(mem).trace()),
            container_result(
                old(mem).trace(),
                final(mem).trace(),
                self.base,
                KIND_OBJECT,
                capacity,
                r,
                final(mem).patience(),
            ),
            final(mem).undisturbed() ==> old(mem).undisturbed() && (r, final(mem).words())
                == container_made(old(mem).words(), self.base, KIND_OBJECT, capacity),
            final(mem).undisturbed() && wf(old(mem).words()) ==> kept(
                old(mem).words(),
                final(mem).words(),
            ),
    {
        let h: Option<u64> = create_object(mem, capacity);
        container_ref(self.base, h)
    }

    /// Allocates an array.
    pub fn create_array<M: Memory>(&self, mem: &mut M, capacity: u32) -> (r: Result<
        NodeRef,
        ApiError,
    >)
        ensures
            final(mem).patience() <= old(mem).patience(),
            released(old(mem).trace(), final(mem).trace()),
            builds(old(mem).trace(), final(mem).trace()),
            container_result(
                old(mem).trace(),
                final(mem).trace(),
                self.base,
                KIND_ARRAY,
                capacity,
                r,
                final(mem).patience(),
            ),
            final(mem).undisturbed() ==> old(mem).undisturbed() && (r, final(mem).words())
                == container_made(old(mem).words(), self.base, KIND_ARRAY, capacity),
            final(mem).undisturbed() && wf(old(mem).words()) ==> kept(
                old(mem).words(),
                final(mem).words(),
            ),
    {
        let h: Option<u64> = create_array(mem, capacity);
        container_ref(self.base, h)
    }

    /// Allocates a map.
    pub fn create_map<M: Memory>(&self, mem: &mut M, capacity: u32) -> (r: Result<
        NodeRef,
        ApiError,
    >)
        ensures
            final(mem).patience() <= old(mem).patience(),
            released(old(mem).trace(), final(mem).trace()),
            builds(old(mem).trace(), final(mem).trace()),
            container_result(
                old(mem).trace(),
                final(mem).trace(),
                self.base,
                KIND_MAP,
                capacity,
                r,
                final(mem).patience(),
            ),
            final(mem).undisturbed() ==> old(mem).undisturbed() && (r, final(mem).words())
                == container_made(old(mem).words(), self.base, KIND_MAP, capacity),
            final(mem).undisturbed() && wf(old(mem).words()) ==> kept(
                old(mem).words(),
                final(mem).words(),
            ),
    {
        let h: Option<u64> = create_map(mem, capacity);
        container_ref(self.base, h)
    }

    pub fn base(&self) -> (base: u64)
        ensures
            base == self.base,
    {
        self.base
    }

    pub fn capacity(&self) -> (capacity: u64)
        ensures
            capacity == self.capacity,
    {
        self.capacity
    }

    /// The id, for others to attach.
    pub fn id(&self) -> (id: String)
        ensures
            id@ == self.id@,
    {
        self.id.clone()
    }

    /// Gives up the name of the shared memory, so that nobody can attach any more:
    /// gives the name that is to be removed. Nothing for a region in a buffer.
    pub fn close(&mut self) -> (name: Option<String>)
        ensures
            name == match old(self).mapped {
                Some(mapped) => mapped.name,
                None => None,
            },
            final(self).mapped == match old(self).mapped {
                Some(mapped) => Some(MappedRegion { name: None, ..mapped }),
                None => None,
            },
            final(self).base == old(self).base,
            final(self).capacity == old(self).capacity,
            final(self).id == old(self).id,
    {
        match self.mapped.take() {
            Some(mut mapped) => {
                let name: Option<String> = mapped.unlink_backing();
                self.mapped = Some(mapped);
                name
            },
            None => None,
        }
    }
}

} // verus!
