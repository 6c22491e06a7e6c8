//! Object graphs in memory that several threads share.
//!
//! Nested objects, arrays and maps live in one region of 64-bit words. Readers take no
//! locks; a writer claims the version of the node that it changes. `graph` has the
//! operations, `region` and `noderef` the view of them that users hold, `laws`, `blocks` and
//! `order` what holds of them one after the other, `history`, `linear`, `insertion`, `counting`
//! and `sharing` what holds of accesses that interleave, `calls`, `tally` and `puts` what that
//! comes to when threads make any calls. (`standing`, `upkeep`, `bounds` and `upholding` are what
//! the last three rest on.)
//!
//! What users get out of what they put in is told of the calls themselves: in `exchange` of keys
//! and values on their way in and out, in `opening` of names, sizes and mappings, in `usage` of
//! objects and maps, in `array_usage` of arrays, in `limits` of refusals, in `making` of new
//! containers and the root, in `graph_usage` of handles, in `parts` of words and headers, and in
//! `witness` of what a call has seen and done while other threads make theirs. (`steps` has the
//! calls that these laws string together.)
pub mod arena;
pub mod array_usage;
pub mod arrays;
pub mod attempts;
pub mod backend;
pub mod blocks;
pub mod bounds;
pub mod calls;
pub mod counters;
pub mod counting;
pub mod discipline;
pub mod effects;
pub mod exchange;
pub mod format;
pub mod frames;
pub mod graph;
pub mod graph_usage;
pub mod history;
pub mod insertion;
pub mod js;
pub mod laws;
pub mod layout;
pub mod limits;
pub mod linear;
pub mod lists;
pub mod making;
pub mod memory;
pub mod mutation;
pub mod node;
pub mod noderef;
pub mod number;
pub mod opening;
pub mod order;
pub mod parts;
pub mod puts;
pub mod record;
pub mod region;
pub mod root;
pub mod sharing;
pub mod standing;
pub mod steps;
pub mod tables;
pub mod tally;
pub mod text;
pub mod trace;
pub mod upholding;
pub mod upkeep;
pub mod usage;
pub mod value;
pub mod witness;
pub mod words;
