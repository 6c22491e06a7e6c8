# shared-nothing

Object graphs in memory that several threads share: nested objects, arrays and maps
that live in one region, are read without locks and written under a version per node,
and are never copied or serialized. The library is verified with Verus; a thin layer in
`app/` binds it to Node.js (N-API) and to the shared memory of the operating system.

## The region

A region is an array of 64-bit words. Its first six words are the header (state,
capacity, first free byte, free list, root, allocator lock); behind it nodes lie one
after the other. A node has a header of five words (kind and size, capacity and length,
version, count, spare) and a payload: the value of a scalar, the slots of an array, or
the key and value slots of an object or map. A handle is the kind of a node and its
offset in one word.

Every node carries a version, the lowest bit of which marks an active writer. A writer
claims the version with a compare-and-swap, changes the node, and leaves the next even
version. A reader of several words looks at the version before and after, and starts
over if it has changed. A mutation of a container claims the very version at which it
looked the key up.

## What is proved

Every operation works on a `Memory`, one access to one word at a time, and its contract
has two halves. What the thread did, access by access, is known whatever the other
threads do: readers only read; a writer writes to nodes that it holds and to blocks that it
was just given, and releases every version that it claimed; what was looked up, and which
words were written with which values, is written down. What the memory holds afterwards is
known exactly for as long as nobody interferes. The laws about histories then say what the
accesses of several threads, in any order, come to. A history is one sequence of accesses:
those of `SharedMemory` are sequentially consistent. That the threads keep to the order that
these laws ask for follows from the contracts alone, for any calls on containers that the
region holds when the history begins, and on those that threads make in it (`calls`).

| Module | Contents |
| --- | --- |
| `memory`, `trace` | memories, accesses, and what the accesses of one thread have in common |
| `format`, `arena` | the region header, initialization, the allocator |
| `words`, `value`, `number` | words and bytes, handles and values, floating point by its bits |
| `node` | node records, windows, scalars, counters |
| `discipline`, `record`, `attempts` | what a thread changes and when; what its accesses were, one by one; what a mutation leaves alone until it is settled |
| `graph`, `mutation`, `arrays`, `counters` | looking up and changing objects, maps and arrays |
| `layout`, `tables`, `frames`, `effects`, `lists`, `root` | what a region in order is, what each operation does to it, and that it stays in order |
| `laws`, `blocks`, `order` | what holds of the operations taken together; blocks that do not overlap; keys in the order of their first puts |
| `history`, `linear`, `insertion` | what holds when threads interleave: one writer at a time, no torn reads, mutations in one step, a key inserted once |
| `standing`, `upkeep`, `bounds`, `upholding` | which nodes stand at which moment; what holds of them at every moment of a history of calls, and that it does |
| `calls` | threads that make any calls: nodes, keys and header stay in order, nothing is torn, what is looked up is there, mutations are one step |
| `counting`, `tally`, `puts` | no lost updates, of one number and of one key; an absent key that several threads set |
| `sharing` | one initializer, one root, blocks apart |
| `js`, `noderef`, `region`, `backend`, `text` | keys, values, references, regions, and the steps of mapping shared memory |

The one thing that is taken on trust is what the standard library makes of bytes that are
not UTF-8 when a string is read (`lossy_string` in `node`).
