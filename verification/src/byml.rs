//! The BYML document model: a tagged tree of arrays, hashes,
//! strings, binary blobs, and width-preserving scalars.
pub mod text;

use vstd::prelude::*;

verus! {

/// One BYML node. Integer and float widths are distinct tags: width
/// is a semantic property of the document, not an encoding concern.
///
/// `Float` and `Double` hold the IEEE-754 bit pattern of their value,
/// so trees compare bit-for-bit on float leaves.
#[derive(Debug, PartialEq)]
pub enum Byml {
    /// The absent value.
    Null,
    /// A text string.
    String(String),
    /// A raw binary blob.
    BinaryData(Vec<u8>),
    /// An ordered sequence of nodes.
    Array(Vec<Byml>),
    /// An ordered mapping from text keys to nodes. The parser stores
    /// entries in ascending key order and the emitter writes them so;
    /// equality of trees is order-sensitive, so two hashes that hold
    /// the same pairs compare equal only in that canonical order.
    Hash(Vec<(String, Byml)>),
    /// A boolean.
    Bool(bool),
    /// A signed 32-bit integer.
    I32(i32),
    /// A 32-bit float, held as its bit pattern.
    Float(u32),
    /// An unsigned 32-bit integer.
    U32(u32),
    /// A signed 64-bit integer.
    I64(i64),
    /// An unsigned 64-bit integer.
    U64(u64),
    /// A 64-bit float, held as its bit pattern.
    Double(u64),
}

} // verus!
