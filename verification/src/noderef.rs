//! References to the nodes of a region, as users hold them.
use crate::arena::odd;
use crate::arrays::{delete_index, index_refused, push, put_index};
use crate::attempts::{claims_array, lemma_claims_array};
use crate::counters::{count_refused, increment_counter, key_counted};
use crate::discipline::{
    builds, disciplined, lemma_builds_disciplined, lemma_disciplined_join, lemma_disciplined_start,
    lemma_idle_builds, work_of,
};
use crate::graph::{
    handle_found, handle_linked, item_found, key_absent, key_removed, key_set, keys_of, keys_read,
    length, read_index_handle, read_key_handle, rval, texts,
};
use crate::js::{
    from_graph, graph_result, js_scalar, key_arg, key_name, rval_to_js, shown, stored_as, ApiError,
    JsInput, JsKey, JsOutput, KeyArg, KeyName,
};
use crate::layout::{
    cap_of, count_of, is_node, kept, lemma_appended_nodes, lemma_with_scalar, live, live_table,
    seq_of, wf,
};
use crate::lists::item_fits;
use crate::memory::{Event, Memory};
use crate::mutation::{delete_key, put_key_handle, put_key_scalar, put_refused};
use crate::node::{
    new_scalar_node, one_increment_seen, unlocked, value_at, value_locked, value_refused,
    value_seen, with_scalar, NODE_HDR,
};
use crate::record::{
    ends_in_window, item_word, item_written, lemma_item_written, lemma_node_made_later,
    lemma_push_made, node_made, push_made, store,
};
use crate::tables::{
    counted, handle_for, handle_put, item_for, item_put, item_removed, key_deleted, keys_in,
    lemma_container_not_a_key, pushed, scalar_put,
};
use crate::trace::{
    idle, lemma_extends_start, lemma_reads_only_idle, loads, reads_only, released, seen,
    stays_inside,
};
use crate::value::{
    container_kind, hkind, is_container, kind_of, off_of, GraphError, Scalar, Value, H_INVALID,
    KIND_ARRAY, KIND_BIGINT, KIND_BOOL, KIND_F64, KIND_INT, KIND_MAP, KIND_OBJECT, KIND_STR,
};
use crate::words::lower;
use vstd::prelude::*;

verus! {

broadcast use crate::trace::group_trace;

/// A reference to a node: where the region is, and the handle of the node.
#[derive(Debug, Clone, Copy, PartialEq, Eq, Structural)]
pub struct NodeRef {
    pub base: u64,
    pub handle: u64,
}

/// The name of a kind.
pub open spec fn kind_name(kind: u8) -> Seq<char> {
    if kind == KIND_OBJECT {
        "Object"@
    } else if kind == KIND_ARRAY {
        "Array"@
    } else if kind == KIND_MAP {
        "Map"@
    } else if kind == KIND_BOOL {
        "Boolean"@
    } else if kind == KIND_INT || kind == KIND_F64 {
        "Number"@
    } else if kind == KIND_BIGINT {
        "BigInt"@
    } else if kind == KIND_STR {
        "String"@
    } else {
        "Null"@
    }
}

/// Creates a node for a scalar.
pub fn scalar_to_handle<M: Memory>(mem: &mut M, s: &Scalar) -> (h: Result<u64, ApiError>)
    ensures
        final(mem).patience() <= old(mem).patience(),
        released(old(mem).trace(), final(mem).trace()),
        builds(old(mem).trace(), final(mem).trace()),
        h matches Ok(v) ==> node_made(old(mem).trace(), final(mem).trace(), v, s@),
        h matches Err(e) ==> node_refused(
            old(mem).trace(),
            final(mem).trace(),
            s@,
            e,
            final(mem).patience(),
        ),
        final(mem).undisturbed() ==> old(mem).undisturbed() && final(mem).words() == with_scalar(
            old(mem).words(),
            s@,
        ).1 && match with_scalar(old(mem).words(), s@).0 {
            Some(v) => h == Ok::<u64, ApiError>(v),
            None => h is Err,
        },
{
    match new_scalar_node(mem, s) {
        Some(h) => Ok(h),
        None => Err(ApiError::CapacityExceeded),
    }
}

/// The handle that the node behind `h` has for a key; texts are keys of objects and maps,
/// numbers of arrays.
pub open spec fn handle_read(ws: Seq<u64>, h: u64, key: JsKey) -> Result<u64, ApiError> {
    let n = off_of(h) as int;
    match key_name(key) {
        Err(e) => Err(e),
        Ok(KeyName::Index(i)) => if kind_of(h) != KIND_ARRAY {
            Err(ApiError::TextWanted)
        } else if i < cap_of(ws, n) && odd(seq_of(ws, n)) {
            Err(ApiError::Graph(GraphError::Busy))
        } else {
            Ok(item_for(ws, n, i as int))
        },
        Ok(KeyName::Key(s)) => if kind_of(h) == KIND_ARRAY {
            Err(ApiError::IndexWanted)
        } else if odd(seq_of(ws, n)) {
            Err(ApiError::Graph(GraphError::Busy))
        } else {
            Ok(handle_for(ws, n, s))
        },
    }
}

/// What setting index `i` of the array behind `h` to the handle `v` does.
pub open spec fn index_set(ws: Seq<u64>, h: u64, i: u32, v: u64) -> (
    Result<(), ApiError>,
    Seq<u64>,
) {
    let a = off_of(h) as int;
    if i >= cap_of(ws, a) {
        (Err(ApiError::Graph(GraphError::ArrayFull)), ws)
    } else if !unlocked(ws, a) {
        (Err(ApiError::Graph(GraphError::Busy)), ws)
    } else {
        (Ok(()), item_put(ws, a, i as int, v))
    }
}

/// What setting `key` of the node behind `h` to the scalar `v` does.
pub open spec fn value_set(ws: Seq<u64>, h: u64, key: KeyName, v: Value) -> (
    Result<(), ApiError>,
    Seq<u64>,
) {
    match key {
        KeyName::Key(s) => if kind_of(h) == KIND_ARRAY {
            (Err(ApiError::IndexWanted), ws)
        } else {
            let (r, xs) = scalar_put(ws, off_of(h) as int, s, v);
            (graph_result(r), xs)
        },
        KeyName::Index(i) => if kind_of(h) != KIND_ARRAY {
            (Err(ApiError::TextWanted), ws)
        } else {
            match with_scalar(ws, v) {
                (Some(new), w) => index_set(w, h, i, new),
                (None, w) => (Err(ApiError::CapacityExceeded), w),
            }
        },
    }
}

/// What linking the node behind `child` to `key` of the node behind `h` does.
pub open spec fn node_set(ws: Seq<u64>, h: u64, key: KeyName, child: u64) -> (
    Result<(), ApiError>,
    Seq<u64>,
) {
    match key {
        KeyName::Key(s) => if kind_of(h) == KIND_ARRAY {
            (Err(ApiError::IndexWanted), ws)
        } else {
            let (r, xs) = handle_put(ws, off_of(h) as int, s, child);
            (graph_result(r), xs)
        },
        KeyName::Index(i) => if kind_of(h) != KIND_ARRAY {
            (Err(ApiError::TextWanted), ws)
        } else {
            index_set(ws, h, i, child)
        },
    }
}

/// What appending the handle `v` to the array behind `h` does.
pub open spec fn item_pushed(ws: Seq<u64>, h: u64, v: u64) -> (Result<u32, ApiError>, Seq<u64>) {
    let a = off_of(h) as int;
    if unlocked(ws, a) {
        let (r, xs) = pushed(ws, a, v);
        (graph_result(r), xs)
    } else {
        (Err(ApiError::Graph(GraphError::Busy)), ws)
    }
}

/// What deleting `key` of the node behind `h` does. A number deletes nothing of an object
/// or map.
pub open spec fn name_removed(ws: Seq<u64>, h: u64, key: KeyName) -> (
    Result<bool, ApiError>,
    Seq<u64>,
) {
    let n = off_of(h) as int;
    match key {
        KeyName::Key(s) => if kind_of(h) == KIND_ARRAY {
            (Err(ApiError::IndexWanted), ws)
        } else {
            let (was, xs) = key_deleted(ws, n, s);
            (Ok(was), xs)
        },
        KeyName::Index(i) => if kind_of(h) != KIND_ARRAY {
            (Ok(false), ws)
        } else if i >= cap_of(ws, n) {
            (Err(ApiError::Graph(GraphError::ArrayFull)), ws)
        } else if !unlocked(ws, n) {
            (Err(ApiError::Graph(GraphError::Busy)), ws)
        } else {
            (Ok(true), item_removed(ws, n, i as int))
        },
    }
}

/// If a text is used as a key, and not of an array, the region is in order and the node is an
/// object or map.
pub open spec fn fits(ws: Seq<u64>, h: u64, key: KeyName) -> bool {
    key is Key && kind_of(h) != KIND_ARRAY ==> wf(ws) && live_table(ws, h)
}

/// The region is in order, and `key` is one that the node behind `h` can have.
pub open spec fn in_order(ws: Seq<u64>, h: u64, key: KeyName) -> bool {
    wf(ws) && live(ws, h) && fits(ws, h, key)
}

/// A new scalar can be put into an array, which is still there.
proof fn lemma_new_item(ws: Seq<u64>, v: Value, h: u64)
    requires
        wf(ws),
        !v.is_container(),
        live(ws, h),
    ensures
        ({
            let (new, w) = with_scalar(ws, v);
            &&& kept(ws, w)
            &&& live(w, h)
            &&& new matches Some(x) ==> item_fits(w, x)
        }),
{
    lemma_with_scalar(ws, v);
    if let (Some(_), w) = with_scalar(ws, v) {
        lemma_appended_nodes(ws, w, NODE_HDR + v.size());
        assert(is_node(w, off_of(h) as int));
    }
}

// What was seen and done, whatever the other threads do.

/// The thread ended by reading, since `t0`, what the node behind `h` has under `name`, and found
/// the handle `v`, or nothing.
pub open spec fn name_found(
    t0: Seq<Event>,
    t: Seq<Event>,
    h: u64,
    name: KeyName,
    v: u64,
) -> bool {
    match name {
        KeyName::Key(s) => handle_found(t0, t, off_of(h), s, v),
        KeyName::Index(i) => item_found(t0, t, off_of(h), i as int, v),
    }
}

/// The thread ended by reading what the node behind `h` has under the key, and found the handle
/// `v`, or nothing.
pub open spec fn key_found(t0: Seq<Event>, t: Seq<Event>, h: u64, key: JsKey, v: u64) -> bool {
    key_name(key) matches Ok(name) && name_found(t0, t, h, name, v)
}

/// The thread ended by reading what the node behind `h` has under the key; `node` is that, if it
/// is a container.
pub open spec fn node_found(
    t0: Seq<Event>,
    t: Seq<Event>,
    this: NodeRef,
    key: JsKey,
    node: Option<NodeRef>,
) -> bool {
    exists|v: u64| #[trigger]
        key_found(t0, t, this.handle, key, v) && node == if container_kind(kind_of(v)) {
            Some(NodeRef { base: this.base, handle: v })
        } else {
            None
        }
}

/// With the accesses up to `i` the thread read what the node behind `h` has under the key, and
/// found the handle `v`; with the others it read the value behind that, which shows as `out`.
pub open spec fn key_then_shown(
    t0: Seq<Event>,
    t: Seq<Event>,
    h: u64,
    key: JsKey,
    i: int,
    v: u64,
    out: Value,
) -> bool {
    &&& 0 <= i <= t.len()
    &&& key_found(t0, t.take(i), h, key, v)
    &&& if container_kind(kind_of(v)) {
        out == Value::Null
    } else {
        value_seen(t.take(i), t, v, out)
    }
}

/// From `t0` to `t` the thread read the value that the node behind `h` has under the key, which
/// shows as `out`.
pub open spec fn value_found(
    t0: Seq<Event>,
    t: Seq<Event>,
    h: u64,
    key: JsKey,
    out: Value,
) -> bool {
    exists|i: int, v: u64| #[trigger] key_then_shown(t0, t, h, key, i, v, out)
}

/// From `t0` to `t` the thread looked whether the node behind `h` has something under the key.
pub open spec fn presence_found(
    t0: Seq<Event>,
    t: Seq<Event>,
    h: u64,
    key: JsKey,
    has: bool,
) -> bool {
    exists|v: u64| #[trigger] key_found(t0, t, h, key, v) && has == (v != H_INVALID)
}

/// From `t0` to `t` the thread made the node behind `new`, which holds `v`, and wrote it to slot
/// `i` of the array at `a`.
pub open spec fn item_stored(
    t0: Seq<Event>,
    t: Seq<Event>,
    a: u64,
    i: int,
    new: u64,
    v: Value,
) -> bool {
    node_made(t0, t, new, v) && item_written(t0, t, a, i, new)
}

/// From `t0` to `t` the thread made a node that holds `v`, and wrote it to slot `i` of the array
/// at `a`.
pub open spec fn new_item_stored(t0: Seq<Event>, t: Seq<Event>, a: u64, i: int, v: Value) -> bool {
    exists|new: u64| #[trigger] item_stored(t0, t, a, i, new, v)
}

/// From `t0` to `t` the thread set what the node behind `h` has under the key to the scalar `v`.
pub open spec fn scalar_stored(
    t0: Seq<Event>,
    t: Seq<Event>,
    h: u64,
    key: JsKey,
    v: Value,
) -> bool {
    match key_name(key) {
        Ok(KeyName::Key(s)) => key_set(t0, t, off_of(h), s, v),
        Ok(KeyName::Index(i)) => new_item_stored(t0, t, off_of(h), i as int, v),
        Err(_) => false,
    }
}

/// From `t0` to `t` the thread set what the node behind `h` has under the key to the scalar that
/// is stored for `value`.
pub open spec fn input_stored(
    t0: Seq<Event>,
    t: Seq<Event>,
    h: u64,
    key: JsKey,
    value: JsInput,
) -> bool {
    exists|v: Value| #[trigger] stored_as(value, v) && scalar_stored(t0, t, h, key, v)
}

/// From `t0` to `t` the thread linked the node behind `child` to the key of the node behind `h`.
pub open spec fn node_stored(
    t0: Seq<Event>,
    t: Seq<Event>,
    h: u64,
    key: JsKey,
    child: u64,
) -> bool {
    match key_name(key) {
        Ok(KeyName::Key(s)) => handle_linked(t0, t, off_of(h), s, child),
        Ok(KeyName::Index(i)) => item_written(t0, t, off_of(h), i as int, child),
        Err(_) => false,
    }
}

/// From `t0` to `t` the thread made the node behind `new`, which holds `v`, and appended it to the
/// array at `a`, which has `len` elements then.
pub open spec fn item_appended(
    t0: Seq<Event>,
    t: Seq<Event>,
    a: u64,
    new: u64,
    v: Value,
    len: u32,
) -> bool {
    node_made(t0, t, new, v) && push_made(t0, t, a, new, Ok(len))
}

/// From `t0` to `t` the thread appended a node for `value` to the array at `a`, which has `len`
/// elements then.
pub open spec fn input_appended(
    t0: Seq<Event>,
    t: Seq<Event>,
    a: u64,
    value: JsInput,
    len: u32,
) -> bool {
    exists|new: u64, v: Value| #[trigger]
        item_appended(t0, t, a, new, v, len) && stored_as(value, v)
}

/// From `t0` to `t` the thread removed what the node behind `h` has under the key.
pub open spec fn key_cleared(t0: Seq<Event>, t: Seq<Event>, h: u64, key: JsKey) -> bool {
    match key_name(key) {
        Ok(KeyName::Key(s)) => key_removed(t0, t, off_of(h), s),
        Ok(KeyName::Index(i)) => ends_in_window(
            t0,
            t,
            off_of(h),
            seq![store(item_word(off_of(h), i as int), H_INVALID)],
        ),
        Err(_) => false,
    }
}

// What was refused, and why.

/// The error for a key that is none, or that the node behind `h` cannot have: texts are keys of
/// objects and maps, numbers of arrays.
pub open spec fn misfit(h: u64, key: JsKey) -> Option<ApiError> {
    match key_name(key) {
        Err(e) => Some(e),
        Ok(KeyName::Index(_)) => if kind_of(h) != KIND_ARRAY {
            Some(ApiError::TextWanted)
        } else {
            None
        },
        Ok(KeyName::Key(_)) => if kind_of(h) == KIND_ARRAY {
            Some(ApiError::IndexWanted)
        } else {
            None
        },
    }
}

/// The error for a key of the node behind `h` that cannot be deleted: a number deletes nothing of
/// an object or map.
pub open spec fn undeletable(h: u64, key: JsKey) -> Option<ApiError> {
    if key_name(key) matches Ok(KeyName::Index(_)) {
        None
    } else {
        misfit(h, key)
    }
}

/// From `t0` to `t` the thread was refused to set what the node behind `h` has under the key, with
/// the error `e` and so much `patience` left. For an object or map it needs nodes for the values
/// `made`.
pub open spec fn change_refused(
    t0: Seq<Event>,
    t: Seq<Event>,
    h: u64,
    key: JsKey,
    made: Seq<Value>,
    e: ApiError,
    patience: nat,
) -> bool {
    e matches ApiError::Graph(g) && match key_name(key) {
        Ok(KeyName::Key(s)) => put_refused(t0, t, off_of(h), s, made, g, patience),
        Ok(KeyName::Index(i)) => index_refused(t0, t, off_of(h), i as int, g, patience),
        Err(_) => false,
    }
}

/// From `t0` to `t` the thread was refused a node for the scalar `v`.
pub open spec fn node_refused(
    t0: Seq<Event>,
    t: Seq<Event>,
    v: Value,
    e: ApiError,
    patience: nat,
) -> bool {
    e == ApiError::CapacityExceeded && (patience == 0 || value_refused(t0, t, v))
}

/// From `t0` to `t` the thread was refused to set what the node behind `h` has under the key to the
/// scalar `v`.
pub open spec fn scalar_refused(
    t0: Seq<Event>,
    t: Seq<Event>,
    h: u64,
    key: JsKey,
    v: Value,
    e: ApiError,
    patience: nat,
) -> bool {
    match key_name(key) {
        Ok(KeyName::Key(s)) => change_refused(
            t0,
            t,
            h,
            key,
            seq![Value::Str(s), v],
            e,
            patience,
        ),
        Ok(KeyName::Index(_)) => node_refused(t0, t, v, e, patience) || change_refused(
            t0,
            t,
            h,
            key,
            seq![],
            e,
            patience,
        ),
        Err(_) => false,
    }
}

/// From `t0` to `t` the thread was refused to append the scalar `v` to the array at `a`.
pub open spec fn append_refused(
    t0: Seq<Event>,
    t: Seq<Event>,
    a: u64,
    v: Value,
    e: ApiError,
    patience: nat,
) -> bool {
    ||| node_refused(t0, t, v, e, patience)
    ||| e == ApiError::Graph(GraphError::Busy) && patience == 0
    ||| e == ApiError::Graph(GraphError::ArrayFull) && exists|new: u64| #[trigger]
        push_made(t0, t, a, new, Err(GraphError::ArrayFull))
}

impl NodeRef {
    /// Where the region is.
    pub fn base(&self) -> (base: u64)
        ensures
            base == self.base,
    {
        self.base
    }

    /// The kind of the node.
    pub fn kind(&self) -> (kind: u8)
        ensures
            kind == kind_of(self.handle),
    {
        hkind(self.handle)
    }

    /// The name of the kind: that of a container, or of a scalar.
    pub fn node_type(&self) -> (name: String)
        ensures
            name@ == kind_name(kind_of(self.handle)),
    {
        let kind: u8 = self.kind();
        let name: &str = if kind == KIND_OBJECT {
            "Object"
        } else if kind == KIND_ARRAY {
            "Array"
        } else if kind == KIND_MAP {
            "Map"
        } else if kind == KIND_BOOL {
            "Boolean"
        } else if kind == KIND_INT || kind == KIND_F64 {
            "Number"
        } else if kind == KIND_BIGINT {
            "BigInt"
        } else if kind == KIND_STR {
            "String"
        } else {
            "Null"
        };
        name.to_owned()
    }

    pub fn is_object(&self) -> (r: bool)
        ensures
            r == (kind_of(self.handle) == KIND_OBJECT),
    {
        self.kind() == KIND_OBJECT
    }

    pub fn is_array(&self) -> (r: bool)
        ensures
            r == (kind_of(self.handle) == KIND_ARRAY),
    {
        self.kind() == KIND_ARRAY
    }

    pub fn is_map(&self) -> (r: bool)
        ensures
            r == (kind_of(self.handle) == KIND_MAP),
    {
        self.kind() == KIND_MAP
    }

    /// How many keys or elements the container has.
    pub fn length<M: Memory>(&self, mem: &mut M) -> (len: u32)
        ensures
            final(mem).words() == old(mem).words(),
            final(mem).patience() == old(mem).patience(),
            reads_only(old(mem).trace(), final(mem).trace()),
            ({
                let t = final(mem).trace();
                let k = t.len() - 1;
                &&& old(mem).trace().len() <= k
                &&& loads(t, k, off_of(self.handle) + 24)
                &&& len == lower(seen(t, k))
            }),
            final(mem).undisturbed() ==> old(mem).undisturbed() && len == lower(
                count_of(old(mem).words(), off_of(self.handle) as int),
            ),
    {
        match length(mem, self.handle) {
            Ok(len) => len,
            Err(_) => 0,
        }
    }

    /// Resolves the handle of the value under a key; `H_INVALID` if there is none.
    pub fn read_handle<M: Memory>(&self, mem: &mut M, key: JsKey) -> (h: Result<u64, ApiError>)
        ensures
            final(mem).words() == old(mem).words(),
            final(mem).patience() <= old(mem).patience(),
            reads_only(old(mem).trace(), final(mem).trace()),
            misfit(self.handle, key) matches Some(e) ==> h == Err::<u64, ApiError>(e)
                && *final(mem) == *old(mem),
            h is Err && misfit(self.handle, key) is None ==> h == Err::<u64, ApiError>(
                ApiError::Graph(GraphError::Busy),
            ) && final(mem).patience() == 0,
            h matches Ok(v) ==> key_found(
                old(mem).trace(),
                final(mem).trace(),
                self.handle,
                key,
                v,
            ),
            final(mem).undisturbed() ==> old(mem).undisturbed() && h == handle_read(
                old(mem).words(),
                self.handle,
                key,
            ),
    {
        let arg: KeyArg = match key_arg(key) {
            Ok(arg) => arg,
            Err(e) => {
                return Err(e);
            },
        };
        match arg {
            KeyArg::Index(i) => if self.is_array() {
                from_graph(read_index_handle(mem, self.handle, i as usize))
            } else {
                Err(ApiError::TextWanted)
            },
            KeyArg::Key(s) => if self.is_array() {
                Err(ApiError::IndexWanted)
            } else {
                from_graph(read_key_handle(mem, self.handle, s.as_str()))
            },
        }
    }

    /// The container under a key; nothing if a scalar is there, or nothing at all.
    pub fn get_node<M: Memory>(&self, mem: &mut M, key: JsKey) -> (r: Result<
        Option<NodeRef>,
        ApiError,
    >)
        ensures
            final(mem).words() == old(mem).words(),
            final(mem).patience() <= old(mem).patience(),
            reads_only(old(mem).trace(), final(mem).trace()),
            misfit(self.handle, key) matches Some(e) ==> r == Err::<Option<NodeRef>, ApiError>(e)
                && *final(mem) == *old(mem),
            r is Err && misfit(self.handle, key) is None ==> r == Err::<Option<NodeRef>, ApiError>(
                ApiError::Graph(GraphError::Busy),
            ) && final(mem).patience() == 0,
            r matches Ok(node) ==> node_found(
                old(mem).trace(),
                final(mem).trace(),
                *self,
                key,
                node,
            ),
            final(mem).undisturbed() ==> old(mem).undisturbed() && match handle_read(
                old(mem).words(),
                self.handle,
                key,
            ) {
                Ok(h) => r == Ok::<Option<NodeRef>, ApiError>(
                    if container_kind(kind_of(h)) {
                        Some(NodeRef { base: self.base, handle: h })
                    } else {
                        None
                    },
                ),
                Err(e) => r == Err::<Option<NodeRef>, ApiError>(e),
            },
    {
        match self.read_handle(mem, key) {
            Ok(h) => if h != H_INVALID && is_container(h) {
                Ok(Some(NodeRef { base: self.base, handle: h }))
            } else {
                Ok(None)
            },
            Err(e) => Err(e),
        }
    }

    /// The scalar under a key; null if a container is there, or nothing at all.
    pub fn get_value<M: Memory>(&self, mem: &mut M, key: JsKey) -> (r: Result<JsOutput, ApiError>)
        ensures
            final(mem).words() == old(mem).words(),
            final(mem).patience() <= old(mem).patience(),
            reads_only(old(mem).trace(), final(mem).trace()),
            misfit(self.handle, key) matches Some(e) ==> r == Err::<JsOutput, ApiError>(e)
                && *final(mem) == *old(mem),
            r is Err && misfit(self.handle, key) is None ==> r == Err::<JsOutput, ApiError>(
                ApiError::Graph(GraphError::Busy),
            ) && final(mem).patience() == 0,
            r matches Ok(v) ==> value_found(
                old(mem).trace(),
                final(mem).trace(),
                self.handle,
                key,
                v@,
            ),
            final(mem).undisturbed() ==> old(mem).undisturbed() && match handle_read(
                old(mem).words(),
                self.handle,
                key,
            ) {
                Ok(h) => if value_locked(old(mem).words(), h) {
                    r == Err::<JsOutput, ApiError>(ApiError::Graph(GraphError::Busy))
                } else {
                    r matches Ok(v) && v@ == shown(value_at(old(mem).words(), h))
                },
                Err(e) => r == Err::<JsOutput, ApiError>(e),
            },
    {
        let h: u64 = match self.read_handle(mem, key) {
            Ok(h) => h,
            Err(e) => {
                return Err(e);
            },
        };
        let ghost t0 = old(mem).trace();
        let ghost t1 = mem.trace();
        let ghost i = t1.len() as int;
        if h == H_INVALID || is_container(h) {
            proof {
                assert(t1.take(i) =~= t1);
                assert(key_then_shown(t0, t1, self.handle, key, i, h, Value::Null));
            }
            return Ok(JsOutput::Null);
        }
        match rval(mem, h) {
            Ok(rv) => {
                proof {
                    assert(mem.trace().take(i) == t1);
                    assert(key_then_shown(t0, mem.trace(), self.handle, key, i, h, rv@));
                }
                Ok(rval_to_js(rv))
            },
            Err(e) => Err(ApiError::Graph(e)),
        }
    }

    /// Whether there is something under a key.
    pub fn has<M: Memory>(&self, mem: &mut M, key: JsKey) -> (r: Result<bool, ApiError>)
        ensures
            final(mem).words() == old(mem).words(),
            final(mem).patience() <= old(mem).patience(),
            reads_only(old(mem).trace(), final(mem).trace()),
            misfit(self.handle, key) matches Some(e) ==> r == Err::<bool, ApiError>(e)
                && *final(mem) == *old(mem),
            r is Err && misfit(self.handle, key) is None ==> r == Err::<bool, ApiError>(
                ApiError::Graph(GraphError::Busy),
            ) && final(mem).patience() == 0,
            r matches Ok(has) ==> presence_found(
                old(mem).trace(),
                final(mem).trace(),
                self.handle,
                key,
                has,
            ),
            final(mem).undisturbed() ==> old(mem).undisturbed() && match handle_read(
                old(mem).words(),
                self.handle,
                key,
            ) {
                Ok(h) => r == Ok::<bool, ApiError>(h != H_INVALID),
                Err(e) => r == Err::<bool, ApiError>(e),
            },
    {
        match self.read_handle(mem, key) {
            Ok(h) => Ok(h != H_INVALID),
            Err(e) => Err(e),
        }
    }

    /// Sets a key or an index to a scalar.
    pub fn set<M: Memory>(&self, mem: &mut M, key: JsKey, value: JsInput) -> (r: Result<
        (),
        ApiError,
    >)
        ensures
            final(mem).patience() <= old(mem).patience(),
            released(old(mem).trace(), final(mem).trace()),
            disciplined(work_of(self.handle, None), old(mem).trace(), final(mem).trace()),
            kind_of(self.handle) == KIND_ARRAY ==> claims_array(
                old(mem).trace(),
                final(mem).trace(),
                off_of(self.handle),
            ),
            r is Ok ==> input_stored(
                old(mem).trace(),
                final(mem).trace(),
                self.handle,
                key,
                value,
            ),
            value is Other ==> r == Err::<(), ApiError>(ApiError::NodeToSet) && *final(mem) == *old(
                mem,
            ),
            value !is Other ==> (misfit(self.handle, key) matches Some(e) ==> r == Err::<
                (),
                ApiError,
            >(e) && *final(mem) == *old(mem)),
            r matches Err(e) ==> value is Other || misfit(self.handle, key) is Some || exists|
                v: Value,
            | #[trigger]
                stored_as(value, v) && scalar_refused(
                    old(mem).trace(),
                    final(mem).trace(),
                    self.handle,
                    key,
                    v,
                    e,
                    final(mem).patience(),
                ),
            final(mem).undisturbed() ==> old(mem).undisturbed(),
            final(mem).undisturbed() && value !is Other ==> (key_name(key) matches Ok(name) ==> fits(
                old(mem).words(),
                self.handle,
                name,
            ) ==> exists|v: Value| #[trigger]
                stored_as(value, v) && (r, final(mem).words()) == value_set(
                    old(mem).words(),
                    self.handle,
                    name,
                    v,
                )),
            final(mem).undisturbed() && (key_name(key) matches Ok(name) && in_order(
                old(mem).words(),
                self.handle,
                name,
            )) ==> kept(old(mem).words(), final(mem).words()),
    {
        proof {
            lemma_disciplined_start(work_of(self.handle, None), mem.trace());
            lemma_reads_only_idle(mem.trace(), mem.trace());
            lemma_idle_builds(mem.trace(), mem.trace());
            lemma_claims_array(mem.trace(), mem.trace(), mem.trace(), off_of(self.handle));
        }
        let scalar: Scalar = match js_scalar(value) {
            Some(s) => s,
            None => {
                return Err(ApiError::NodeToSet);
            },
        };
        assert(stored_as(value, scalar@));
        let arg: KeyArg = match key_arg(key) {
            Ok(arg) => arg,
            Err(e) => {
                return Err(e);
            },
        };
        match arg {
            KeyArg::Key(s) => {
                if self.is_array() {
                    return Err(ApiError::IndexWanted);
                }
                from_graph(put_key_scalar(mem, self.handle, s.as_str(), &scalar))
            },
            KeyArg::Index(i) => {
                if !self.is_array() {
                    return Err(ApiError::TextWanted);
                }
                self.set_item(mem, i, &scalar)
            },
        }
    }

    /// Sets slot `i` of an array to a new node that holds `s`.
    fn set_item<M: Memory>(&self, mem: &mut M, i: u32, s: &Scalar) -> (r: Result<(), ApiError>)
        requires
            kind_of(self.handle) == KIND_ARRAY,
        ensures
            final(mem).patience() <= old(mem).patience(),
            released(old(mem).trace(), final(mem).trace()),
            disciplined(work_of(self.handle, None), old(mem).trace(), final(mem).trace()),
            kind_of(self.handle) == KIND_ARRAY ==> claims_array(
                old(mem).trace(),
                final(mem).trace(),
                off_of(self.handle),
            ),
            r is Ok ==> new_item_stored(
                old(mem).trace(),
                final(mem).trace(),
                off_of(self.handle),
                i as int,
                s@,
            ),
            r matches Err(e) ==> node_refused(
                old(mem).trace(),
                final(mem).trace(),
                s@,
                e,
                final(mem).patience(),
            ) || (e matches ApiError::Graph(g) && index_refused(
                old(mem).trace(),
                final(mem).trace(),
                off_of(self.handle),
                i as int,
                g,
                final(mem).patience(),
            )),
            final(mem).undisturbed() ==> old(mem).undisturbed() && (r, final(mem).words())
                == value_set(old(mem).words(), self.handle, KeyName::Index(i), s@),
            final(mem).undisturbed() && wf(old(mem).words()) && live(old(mem).words(), self.handle)
                ==> kept(old(mem).words(), final(mem).words()),
    {
        proof {
            let ws = mem.words();
            if wf(ws) && live(ws, self.handle) {
                lemma_new_item(ws, s@, self.handle);
            }
        }
        let made: Result<u64, ApiError> = scalar_to_handle(mem, s);
        let ghost t0 = old(mem).trace();
        let ghost t1 = mem.trace();
        proof {
            lemma_builds_disciplined(work_of(self.handle, None), t0, t1);
            lemma_reads_only_idle(t1, t1);
            lemma_claims_array(t0, t1, t1, off_of(self.handle));
        }
        let h: u64 = match made {
            Ok(h) => h,
            Err(e) => {
                return Err(e);
            },
        };
        let done: Result<(), GraphError> = put_index(mem, self.handle, i as usize, h);
        proof {
            let t2 = mem.trace();
            let a = off_of(self.handle);
            lemma_disciplined_join(work_of(self.handle, None), t0, t1, t2);
            lemma_claims_array(t0, t1, t2, a);
            if done is Ok {
                lemma_extends_start(t2);
                lemma_node_made_later(t0, t0, t1, t2, h, s@);
                lemma_item_written(t0, t1, t2, a, i as int, h);
                assert(item_stored(t0, t2, a, i as int, h, s@));
            }
        }
        from_graph(done)
    }

    /// Links a container to a key or an index.
    pub fn set_node<M: Memory>(&self, mem: &mut M, key: JsKey, child: &NodeRef) -> (r: Result<
        (),
        ApiError,
    >)
        ensures
            final(mem).patience() <= old(mem).patience(),
            released(old(mem).trace(), final(mem).trace()),
            disciplined(work_of(self.handle, Some(child.handle)), old(mem).trace(), final(mem).trace()),
            kind_of(self.handle) == KIND_ARRAY ==> claims_array(
                old(mem).trace(),
                final(mem).trace(),
                off_of(self.handle),
            ),
            r is Ok ==> node_stored(
                old(mem).trace(),
                final(mem).trace(),
                self.handle,
                key,
                child.handle,
            ),
            misfit(self.handle, key) matches Some(e) ==> r == Err::<(), ApiError>(e)
                && *final(mem) == *old(mem),
            r matches Err(e) ==> misfit(self.handle, key) is Some || change_refused(
                old(mem).trace(),
                final(mem).trace(),
                self.handle,
                key,
                match key_name(key) {
                    Ok(KeyName::Key(s)) => seq![Value::Str(s)],
                    _ => seq![],
                },
                e,
                final(mem).patience(),
            ),
            final(mem).undisturbed() ==> old(mem).undisturbed(),
            final(mem).undisturbed() ==> (key_name(key) matches Ok(name) ==> fits(
                old(mem).words(),
                self.handle,
                name,
            ) ==> (r, final(mem).words()) == node_set(
                old(mem).words(),
                self.handle,
                name,
                child.handle,
            )),
            final(mem).undisturbed() && (key_name(key) matches Ok(name) && in_order(
                old(mem).words(),
                self.handle,
                name,
            )) && live(old(mem).words(), child.handle) && container_kind(kind_of(child.handle))
                ==> kept(old(mem).words(), final(mem).words()),
    {
        proof {
            lemma_disciplined_start(work_of(self.handle, Some(child.handle)), mem.trace());
            lemma_reads_only_idle(mem.trace(), mem.trace());
            lemma_idle_builds(mem.trace(), mem.trace());
            lemma_claims_array(mem.trace(), mem.trace(), mem.trace(), off_of(self.handle));
            if wf(mem.words()) && live(mem.words(), child.handle) && container_kind(
                kind_of(child.handle),
            ) {
                lemma_container_not_a_key(mem.words(), child.handle);
            }
        }
        let arg: KeyArg = match key_arg(key) {
            Ok(arg) => arg,
            Err(e) => {
                return Err(e);
            },
        };
        match arg {
            KeyArg::Key(s) => if self.is_array() {
                Err(ApiError::IndexWanted)
            } else {
                from_graph(put_key_handle(mem, self.handle, s.as_str(), child.handle))
            },
            KeyArg::Index(i) => if self.is_array() {
                let done: Result<(), GraphError> = put_index(
                    mem,
                    self.handle,
                    i as usize,
                    child.handle,
                );
                proof {
                    let t0 = old(mem).trace();
                    lemma_claims_array(t0, t0, mem.trace(), off_of(self.handle));
                }
                from_graph(done)
            } else {
                Err(ApiError::TextWanted)
            },
        }
    }

    /// Appends a scalar to an array; gives the new length.
    pub fn push<M: Memory>(&self, mem: &mut M, value: JsInput) -> (r: Result<u32, ApiError>)
        ensures
            final(mem).patience() <= old(mem).patience(),
            released(old(mem).trace(), final(mem).trace()),
            disciplined(work_of(self.handle, None), old(mem).trace(), final(mem).trace()),
            kind_of(self.handle) == KIND_ARRAY ==> claims_array(
                old(mem).trace(),
                final(mem).trace(),
                off_of(self.handle),
            ),
            r matches Ok(len) ==> input_appended(
                old(mem).trace(),
                final(mem).trace(),
                off_of(self.handle),
                value,
                len,
            ),
            kind_of(self.handle) != KIND_ARRAY ==> r == Err::<u32, ApiError>(ApiError::NotAnArray)
                && *final(mem) == *old(mem),
            kind_of(self.handle) == KIND_ARRAY && value is Other ==> r == Err::<u32, ApiError>(
                ApiError::NodeToPush,
            ) && *final(mem) == *old(mem),
            r matches Err(e) ==> kind_of(self.handle) != KIND_ARRAY || value is Other || exists|
                v: Value,
            | #[trigger]
                stored_as(value, v) && append_refused(
                    old(mem).trace(),
                    final(mem).trace(),
                    off_of(self.handle),
                    v,
                    e,
                    final(mem).patience(),
                ),
            final(mem).undisturbed() ==> old(mem).undisturbed(),
            final(mem).undisturbed() && kind_of(self.handle) == KIND_ARRAY && value !is Other
                ==> exists|v: Value| #[trigger]
                stored_as(value, v) && (r, final(mem).words()) == match with_scalar(
                    old(mem).words(),
                    v,
                ) {
                    (Some(new), w) => item_pushed(w, self.handle, new),
                    (None, w) => (Err(ApiError::CapacityExceeded), w),
                },
            final(mem).undisturbed() && wf(old(mem).words()) && live(old(mem).words(), self.handle)
                ==> kept(old(mem).words(), final(mem).words()),
    {
        let ghost ws = mem.words();
        proof {
            lemma_disciplined_start(work_of(self.handle, None), mem.trace());
            lemma_reads_only_idle(mem.trace(), mem.trace());
            lemma_idle_builds(mem.trace(), mem.trace());
            lemma_claims_array(mem.trace(), mem.trace(), mem.trace(), off_of(self.handle));
        }
        if !self.is_array() {
            return Err(ApiError::NotAnArray);
        }
        let scalar: Scalar = match js_scalar(value) {
            Some(s) => s,
            None => {
                return Err(ApiError::NodeToPush);
            },
        };
        proof {
            assert(stored_as(value, scalar@));
            if wf(ws) && live(ws, self.handle) {
                lemma_new_item(ws, scalar@, self.handle);
            }
        }
        let made: Result<u64, ApiError> = scalar_to_handle(mem, &scalar);
        let ghost t1 = mem.trace();
        proof {
            lemma_builds_disciplined(work_of(self.handle, None), old(mem).trace(), t1);
            lemma_reads_only_idle(t1, t1);
            lemma_claims_array(old(mem).trace(), t1, t1, off_of(self.handle));
        }
        match made {
            Ok(h) => {
                let done: Result<u32, GraphError> = push(mem, self.handle, h);
                proof {
                    lemma_disciplined_join(
                        work_of(self.handle, None),
                        old(mem).trace(),
                        t1,
                        mem.trace(),
                    );
                    lemma_claims_array(
                        old(mem).trace(),
                        t1,
                        mem.trace(),
                        off_of(self.handle),
                    );
                    if done is Ok {
                        let t0 = old(mem).trace();
                        let t2 = mem.trace();
                        let a = off_of(self.handle);
                        lemma_node_made_later(t0, t0, t1, t2, h, scalar@);
                        lemma_push_made(t0, t1, t2, a, h, done);
                        assert(item_appended(t0, t2, a, h, scalar@, done->Ok_0));
                        lemma_extends_start(mem.trace());
                    } else if done->Err_0 == GraphError::ArrayFull {
                        let a = off_of(self.handle);
                        lemma_push_made(old(mem).trace(), t1, mem.trace(), a, h, done);
                    }
                }
                from_graph(done)
            },
            Err(e) => Err(e),
        }
    }

    /// Appends a container to an array; gives the new length.
    pub fn push_node<M: Memory>(&self, mem: &mut M, child: &NodeRef) -> (r: Result<u32, ApiError>)
        ensures
            final(mem).patience() <= old(mem).patience(),
            released(old(mem).trace(), final(mem).trace()),
            disciplined(work_of(self.handle, Some(child.handle)), old(mem).trace(), final(mem).trace()),
            kind_of(self.handle) == KIND_ARRAY ==> claims_array(
                old(mem).trace(),
                final(mem).trace(),
                off_of(self.handle),
            ),
            r matches Ok(len) ==> push_made(
                old(mem).trace(),
                final(mem).trace(),
                off_of(self.handle),
                child.handle,
                Ok(len),
            ),
            kind_of(self.handle) != KIND_ARRAY ==> r == Err::<u32, ApiError>(ApiError::NotAnArray)
                && *final(mem) == *old(mem),
            r matches Err(e) ==> kind_of(self.handle) != KIND_ARRAY || e == ApiError::Graph(
                GraphError::Busy,
            ) && final(mem).patience() == 0 || e == ApiError::Graph(GraphError::ArrayFull)
                && push_made(
                old(mem).trace(),
                final(mem).trace(),
                off_of(self.handle),
                child.handle,
                Err(GraphError::ArrayFull),
            ),
            final(mem).undisturbed() ==> old(mem).undisturbed(),
            final(mem).undisturbed() && kind_of(self.handle) == KIND_ARRAY ==> (
                r,
                final(mem).words(),
            ) == item_pushed(old(mem).words(), self.handle, child.handle),
            final(mem).undisturbed() && wf(old(mem).words()) && live(old(mem).words(), self.handle)
                && live(old(mem).words(), child.handle) && container_kind(kind_of(child.handle))
                ==> kept(old(mem).words(), final(mem).words()),
    {
        proof {
            lemma_disciplined_start(work_of(self.handle, Some(child.handle)), mem.trace());
            lemma_reads_only_idle(mem.trace(), mem.trace());
            lemma_idle_builds(mem.trace(), mem.trace());
            lemma_claims_array(mem.trace(), mem.trace(), mem.trace(), off_of(self.handle));
            if wf(mem.words()) && live(mem.words(), child.handle) && container_kind(
                kind_of(child.handle),
            ) {
                lemma_container_not_a_key(mem.words(), child.handle);
            }
        }
        if !self.is_array() {
            return Err(ApiError::NotAnArray);
        }
        let done: Result<u32, GraphError> = push(mem, self.handle, child.handle);
        proof {
            let t0 = old(mem).trace();
            lemma_claims_array(t0, t0, mem.trace(), off_of(self.handle));
        }
        from_graph(done)
    }

    /// Increments the counter under a key; gives its new value.
    pub fn increment<M: Memory>(&self, mem: &mut M, key: JsKey) -> (r: Result<i64, ApiError>)
        ensures
            final(mem).patience() <= old(mem).patience(),
            released(old(mem).trace(), final(mem).trace()),
            disciplined(work_of(self.handle, None), old(mem).trace(), final(mem).trace()),
            r matches Ok(v) ==> one_increment_seen(old(mem).trace(), final(mem).trace(), v),
            r matches Ok(v) ==> (key_name(key) matches Ok(KeyName::Key(s)) && key_counted(
                old(mem).trace(),
                final(mem).trace(),
                off_of(self.handle),
                s,
                v,
            )),
            key_name(key) matches Err(e) ==> r == Err::<i64, ApiError>(e) && *final(mem) == *old(
                mem,
            ),
            key_name(key) matches Ok(KeyName::Index(_)) ==> r == Err::<i64, ApiError>(
                ApiError::CounterByIndex,
            ) && *final(mem) == *old(mem),
            key_name(key) is Ok && key_name(key)->Ok_0 is Key && kind_of(self.handle) == KIND_ARRAY
                ==> r == Err::<i64, ApiError>(ApiError::IndexWanted) && *final(mem) == *old(mem),
            r matches Err(e) ==> (key_name(key) matches Ok(KeyName::Key(s)) ==> kind_of(self.handle)
                == KIND_ARRAY || (e matches ApiError::Graph(g) && count_refused(
                old(mem).trace(),
                final(mem).trace(),
                off_of(self.handle),
                s,
                g,
                final(mem).patience(),
            ))),
            final(mem).undisturbed() ==> old(mem).undisturbed(),
            final(mem).undisturbed() ==> (key_name(key) matches Ok(KeyName::Key(s)) ==> wf(
                old(mem).words(),
            ) && live_table(old(mem).words(), self.handle) ==> {
                let (v, xs) = counted(old(mem).words(), off_of(self.handle) as int, s);
                r == graph_result(v) && final(mem).words() == xs && kept(old(mem).words(), xs)
            }),
    {
        proof {
            lemma_disciplined_start(work_of(self.handle, None), mem.trace());
        }
        match key_arg(key) {
            Ok(KeyArg::Key(s)) => if self.is_array() {
                Err(ApiError::IndexWanted)
            } else {
                from_graph(increment_counter(mem, self.handle, s.as_str()))
            },
            Ok(KeyArg::Index(_)) => Err(ApiError::CounterByIndex),
            Err(e) => Err(e),
        }
    }

    /// Deletes a key or empties an index; gives whether the key was there.
    pub fn delete<M: Memory>(&self, mem: &mut M, key: JsKey) -> (r: Result<bool, ApiError>)
        ensures
            final(mem).patience() <= old(mem).patience(),
            released(old(mem).trace(), final(mem).trace()),
            disciplined(work_of(self.handle, None), old(mem).trace(), final(mem).trace()),
            stays_inside(
                old(mem).trace(),
                final(mem).trace(),
                off_of(self.handle),
                if kind_of(self.handle) == KIND_ARRAY {
                    8
                } else {
                    16
                },
            ),
            r == Ok::<bool, ApiError>(true) ==> key_cleared(
                old(mem).trace(),
                final(mem).trace(),
                self.handle,
                key,
            ),
            r == Ok::<bool, ApiError>(false) ==> match key_name(key) {
                Ok(KeyName::Key(s)) => key_absent(
                    old(mem).trace(),
                    final(mem).trace(),
                    off_of(self.handle),
                    s,
                ),
                _ => kind_of(self.handle) != KIND_ARRAY,
            },
            key_name(key) is Ok && key_name(key)->Ok_0 is Index && kind_of(self.handle)
                != KIND_ARRAY ==> r == Ok::<bool, ApiError>(false) && *final(mem) == *old(mem),
            undeletable(self.handle, key) matches Some(e) ==> r == Err::<bool, ApiError>(e)
                && *final(mem) == *old(mem),
            r matches Err(e) ==> undeletable(self.handle, key) is Some || idle(
                old(mem).trace(),
                final(mem).trace(),
            ) && (e == ApiError::Graph(GraphError::Busy) && final(mem).patience() == 0
                || change_refused(
                old(mem).trace(),
                final(mem).trace(),
                self.handle,
                key,
                seq![],
                e,
                final(mem).patience(),
            )),
            r matches Err(e) ==> (key_name(key) matches Ok(KeyName::Key(_)) ==> kind_of(self.handle)
                == KIND_ARRAY || e == ApiError::Graph(GraphError::Busy) && final(mem).patience()
                == 0),
            final(mem).undisturbed() ==> old(mem).undisturbed(),
            final(mem).undisturbed() ==> (key_name(key) matches Ok(name) ==> fits(
                old(mem).words(),
                self.handle,
                name,
            ) ==> (r, final(mem).words()) == name_removed(old(mem).words(), self.handle, name)),
            final(mem).undisturbed() && (key_name(key) matches Ok(name) && in_order(
                old(mem).words(),
                self.handle,
                name,
            )) ==> kept(old(mem).words(), final(mem).words()),
    {
        proof {
            lemma_reads_only_idle(mem.trace(), mem.trace());
            lemma_disciplined_start(work_of(self.handle, None), mem.trace());
        }
        match key_arg(key) {
            Ok(KeyArg::Key(s)) => if self.is_array() {
                Err(ApiError::IndexWanted)
            } else {
                from_graph(delete_key(mem, self.handle, s.as_str()))
            },
            Ok(KeyArg::Index(i)) => if self.is_array() {
                from_graph(delete_index(mem, self.handle, i as usize))
            } else {
                Ok(false)
            },
            Err(e) => Err(e),
        }
    }

    /// The keys of an object or map.
    pub fn keys<M: Memory>(&self, mem: &mut M) -> (r: Result<Vec<String>, ApiError>)
        ensures
            final(mem).words() == old(mem).words(),
            final(mem).patience() <= old(mem).patience(),
            reads_only(old(mem).trace(), final(mem).trace()),
            r matches Ok(list) ==> keys_read(
                old(mem).trace(),
                final(mem).trace(),
                off_of(self.handle),
                texts(list@),
            ),
            r matches Err(e) ==> e == ApiError::Graph(GraphError::Busy) && final(mem).patience()
                == 0,
            final(mem).undisturbed() ==> {
                let ws = old(mem).words();
                let c = off_of(self.handle) as int;
                &&& old(mem).undisturbed()
                &&& r is Ok == !odd(seq_of(ws, c))
                &&& r matches Ok(list) ==> texts(list@) == keys_in(ws, c, cap_of(ws, c))
            },
    {
        from_graph(keys_of(mem, self.handle))
    }
}

} // verus!
