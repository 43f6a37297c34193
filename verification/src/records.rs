//! The fixed-layout records of the container format and their decoders.
//!
//! Each record is decoded from a byte slice that starts at the record's
//! first byte. A slice too short for the record decodes to `None`; a
//! successful decode is pinned, field by field, to the bytes it came from.

use vstd::prelude::*;
use crate::bytes::be_u16_at;
use crate::bytes::be_u32_at;
use crate::bytes::read_be_u16;
use crate::bytes::read_be_u32;
use vstd::slice::slice_subrange;
use vstd::slice::slice_to_vec;

verus! {

/// The 32-byte file header: signature, version, and the offsets and lengths
/// of the block-index region and the variable-directory region.
#[derive(Clone, Debug)]
pub struct Header {
    pub signature: [u8; 8],
    pub version: u32,
    pub number_of_blocks: u32,
    pub index_offset: u32,
    pub index_length: u32,
    pub vars_offset: u32,
    pub vars_length: u32,
}

/// `h` holds exactly the fields of the header stored at the start of `b`.
pub open spec fn header_matches(h: Header, b: Seq<u8>) -> bool {
    &&& h.signature@ == b.subrange(0, 8)
    &&& h.version == be_u32_at(b, 8)
    &&& h.number_of_blocks == be_u32_at(b, 12)
    &&& h.index_offset == be_u32_at(b, 16)
    &&& h.index_length == be_u32_at(b, 20)
    &&& h.vars_offset == be_u32_at(b, 24)
    &&& h.vars_length == be_u32_at(b, 28)
}

impl Header {
    /// Decodes the header at the start of `bytes`; `None` iff fewer than 32
    /// bytes are available.
    pub fn parse(bytes: &[u8]) -> (r: Option<Header>)
        ensures
            match r {
                Some(h) => bytes@.len() >= 32 && header_matches(h, bytes@),
                None => bytes@.len() < 32,
            },
    {
        if bytes.len() < 32 {
            return None;
        }
        let signature: [u8; 8] = [
            bytes[0],
            bytes[1],
            bytes[2],
            bytes[3],
            bytes[4],
            bytes[5],
            bytes[6],
            bytes[7],
        ];
        proof {
            assert(signature@ =~= bytes@.subrange(0, 8));
        }
        Some(
            Header {
                signature,
                version: read_be_u32(bytes, 8),
                number_of_blocks: read_be_u32(bytes, 12),
                index_offset: read_be_u32(bytes, 16),
                index_length: read_be_u32(bytes, 20),
                vars_offset: read_be_u32(bytes, 24),
                vars_length: read_be_u32(bytes, 28),
            },
        )
    }
}

/// A block: one byte range inside the buffer, stored as an 8-byte
/// `(address, length)` pair and referenced everywhere by integer index.
#[derive(Clone, Copy, Debug, PartialEq, Eq, Structural)]
pub struct Pointer {
    pub address: u32,
    pub length: u32,
}

/// The block pair stored in `b` at offset `off`.
pub open spec fn pointer_at(b: Seq<u8>, off: int) -> Pointer {
    Pointer { address: be_u32_at(b, off) as u32, length: be_u32_at(b, off + 4) as u32 }
}

impl Pointer {
    /// Decodes one `(address, length)` pair at the start of `bytes`; `None`
    /// iff fewer than 8 bytes are available.
    pub fn parse(bytes: &[u8]) -> (r: Option<Pointer>)
        ensures
            match r {
                Some(p) => bytes@.len() >= 8 && p == pointer_at(bytes@, 0),
                None => bytes@.len() < 8,
            },
    {
        if bytes.len() < 8 {
            return None;
        }
        Some(Pointer { address: read_be_u32(bytes, 0), length: read_be_u32(bytes, 4) })
    }
}

/// One entry of the variable directory: a name bound to a block index.
#[derive(Clone, Debug)]
pub struct Var {
    pub index: u32,
    pub length: u8,
    pub name: Vec<u8>,
}

/// `v` holds exactly the variable entry stored in `b` at offset `p`:
/// a `u32` block index, a one-byte name length, and that many name bytes.
pub open spec fn var_matches_at(v: Var, b: Seq<u8>, p: int) -> bool {
    &&& p + 5 + v.length <= b.len()
    &&& v.index == be_u32_at(b, p)
    &&& v.length == b[p + 4]
    &&& v.name@ == b.subrange(p + 5, p + 5 + v.length)
}

/// The offset just past the variable entry stored in `b` at offset `p`.
pub open spec fn var_end_at(b: Seq<u8>, p: int) -> int {
    p + 5 + b[p + 4]
}

impl Var {
    /// Decodes one variable entry at the start of `bytes`; `None` iff the
    /// fixed part or the name bytes would run past the end of `bytes`.
    pub fn parse(bytes: &[u8]) -> (r: Option<Var>)
        ensures
            match r {
                Some(v) => var_matches_at(v, bytes@, 0),
                None => bytes@.len() < 5 || 5 + bytes@[4] > bytes@.len(),
            },
    {
        if bytes.len() < 5 {
            return None;
        }
        let length = bytes[4];
        if bytes.len() - 5 < length as usize {
            return None;
        }
        let name = slice_to_vec(slice_subrange(bytes, 5, 5 + length as usize));
        Some(Var { index: read_be_u32(bytes, 0), length, name })
    }
}

/// The header record of a named tree: its root child block index plus
/// bookkeeping fields. 21 bytes on disk.
#[derive(Clone, Debug)]
pub struct Tree {
    pub tree: [u8; 4],
    pub version: u32,
    pub child: u32,
    pub block_size: u32,
    pub path_count: u32,
    pub unknown: u8,
}

/// `t` holds exactly the tree-root record stored in `b` at offset `off`.
pub open spec fn tree_matches_at(t: Tree, b: Seq<u8>, off: int) -> bool {
    &&& t.tree@ == b.subrange(off, off + 4)
    &&& t.version == be_u32_at(b, off + 4)
    &&& t.child == be_u32_at(b, off + 8)
    &&& t.block_size == be_u32_at(b, off + 12)
    &&& t.path_count == be_u32_at(b, off + 16)
}

/// The root child block index of the tree-root record at offset `off`.
pub open spec fn tree_child_at(b: Seq<u8>, off: int) -> int {
    be_u32_at(b, off + 8)
}

impl Tree {
    /// Decodes the tree-root record at the start of `bytes`; `None` iff
    /// fewer than 21 bytes are available.
    pub fn parse(bytes: &[u8]) -> (r: Option<Tree>)
        ensures
            match r {
                Some(t) => bytes@.len() >= 21 && tree_matches_at(t, bytes@, 0),
                None => bytes@.len() < 21,
            },
    {
        if bytes.len() < 21 {
            return None;
        }
        let tag: [u8; 4] = [bytes[0], bytes[1], bytes[2], bytes[3]];
        proof {
            assert(tag@ =~= bytes@.subrange(0, 4));
        }
        Some(
            Tree {
                tree: tag,
                version: read_be_u32(bytes, 4),
                child: read_be_u32(bytes, 8),
                block_size: read_be_u32(bytes, 12),
                path_count: read_be_u32(bytes, 16),
                unknown: bytes[20],
            },
        )
    }
}

/// The 12-byte header of one tree node: leaf flag, entry count, and the
/// forward/backward sibling block indices.
#[derive(Clone, Copy, Debug, PartialEq, Eq, Structural)]
pub struct TreeEntry {
    pub is_leaf: u16,
    pub count: u16,
    pub forward: u32,
    pub backward: u32,
}

/// The tree-node header stored in `b` at offset `off`.
pub open spec fn tree_entry_at(b: Seq<u8>, off: int) -> TreeEntry {
    TreeEntry {
        is_leaf: be_u16_at(b, off) as u16,
        count: be_u16_at(b, off + 2) as u16,
        forward: be_u32_at(b, off + 4) as u32,
        backward: be_u32_at(b, off + 8) as u32,
    }
}

impl TreeEntry {
    /// Decodes one tree-node header at the start of `bytes`; `None` iff
    /// fewer than 12 bytes are available.
    pub fn parse(bytes: &[u8]) -> (r: Option<TreeEntry>)
        ensures
            match r {
                Some(e) => bytes@.len() >= 12 && e == tree_entry_at(bytes@, 0),
                None => bytes@.len() < 12,
            },
    {
        if bytes.len() < 12 {
            return None;
        }
        Some(
            TreeEntry {
                is_leaf: read_be_u16(bytes, 0),
                count: read_be_u16(bytes, 2),
                forward: read_be_u32(bytes, 4),
                backward: read_be_u32(bytes, 8),
            },
        )
    }
}

/// One key/value pair of a leaf node, stored as two block indices.
#[derive(Clone, Copy, Debug, PartialEq, Eq, Structural)]
pub struct TreeEntryIndices {
    pub value_index: u32,
    pub key_index: u32,
}

/// The leaf-pair index record stored in `b` at offset `off`.
pub open spec fn tree_entry_indices_at(b: Seq<u8>, off: int) -> TreeEntryIndices {
    TreeEntryIndices {
        value_index: be_u32_at(b, off) as u32,
        key_index: be_u32_at(b, off + 4) as u32,
    }
}

impl TreeEntryIndices {
    /// Decodes one leaf-pair index record at the start of `bytes`; `None`
    /// iff fewer than 8 bytes are available.
    pub fn parse(bytes: &[u8]) -> (r: Option<TreeEntryIndices>)
        ensures
            match r {
                Some(e) => bytes@.len() >= 8 && e == tree_entry_indices_at(bytes@, 0),
                None => bytes@.len() < 8,
            },
    {
        if bytes.len() < 8 {
            return None;
        }
        Some(
            TreeEntryIndices { value_index: read_be_u32(bytes, 0), key_index: read_be_u32(bytes, 4) },
        )
    }
}

} // verus!
