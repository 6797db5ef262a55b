//! A flat, pool-based representation of GFA variation graphs.
//!
//! A graph is held in a handful of append-only arrays ("pools"). Records in
//! one pool refer to runs of items in another by half-open index ranges, so
//! the whole structure holds no pointers and can be written to, and read
//! back from, a single contiguous block of bytes.
//!
//! - [`pool`]: appending to pools.
//! - [`flatgfa`]: the records, the graph held in memory, and its builder.
//! - [`store`]: one way to read a graph, whether it is held in memory or
//!   lies in a block of bytes.
//! - [`namemap`]: from the names of segments to their ids.
//! - [`gfaline`] and [`parse`]: from GFA text to a graph.
//! - [`print`]: from a graph to GFA text.
//! - [`record`] and [`file`]: from a graph to a block of bytes and back.
//! - [`gaf`]: looking up the reads of a GAF file in a graph.
//! - [`memfile`]: splitting bytes at a delimiter.
//! - [`bytestr`]: the byte strings of the `bstr` crate.
//! - [`layout`], [`unparse`] and [`roundtrip`]: what is proved of the
//!   above, up to this: the text written from a graph that was built from a
//!   text builds the same graph.

pub mod bytestr;
pub mod file;
pub mod flatgfa;
pub mod gaf;
pub mod gfaline;
pub mod layout;
pub mod memfile;
pub mod namemap;
pub mod parse;
pub mod pool;
pub mod print;
pub mod record;
pub mod roundtrip;
pub mod store;
pub mod unparse;
