//! The container: an owned, immutable byte buffer plus the three tables
//! parsed from it once at load time — the block table, the free-block
//! table, and the variable directory.
//!
//! Loading either fails with an explicit error (a structure whose declared
//! extent runs past its bound) or yields a container whose tables are
//! pinned, entry by entry, to the bytes of the buffer.

use vstd::prelude::*;
use crate::bytes::be_u32_at;
use crate::bytes::bytes_eq;
use crate::bytes::read_be_u32;
use crate::records::Header;
use crate::records::Pointer;
use crate::records::Var;
use crate::records::header_matches;
use crate::records::pointer_at;
use crate::records::tree_child_at;
use crate::records::var_end_at;
use crate::records::var_matches_at;
use crate::visit::Combiner;
use crate::visit::PairMapper;
use crate::visit::elem_views;
use crate::visit::fold_pairs;
use crate::visit::map_pairs;
use crate::walk::tree_pairs;
use crate::walk::views_of;
use crate::walk::walk_tree;
use vstd::slice::slice_subrange;
use vstd::slice::slice_to_vec;
use vstd::string::StringExecFns;
use vstd::string::StringSliceAdditionalSpecFns;

verus! {

/// Why a buffer cannot be loaded as a container.
#[derive(Clone, Copy, Debug, PartialEq, Eq, Structural)]
pub enum BomError {
    /// The buffer is shorter than the 32-byte header.
    HeaderOutOfBounds,
    /// The block table's declared extent runs past the buffer end.
    BlockTableOutOfBounds,
    /// The free-block table's declared extent runs past the buffer end or
    /// past the end of the block-index region.
    FreeTableOutOfBounds,
    /// A variable-directory entry runs past the buffer end.
    VarsOutOfBounds,
}

/// The block-index region's offset, from the header stored at the start of `b`.
pub open spec fn index_offset_of(b: Seq<u8>) -> int {
    be_u32_at(b, 16)
}

/// The block-index region's length, from the header.
pub open spec fn index_length_of(b: Seq<u8>) -> int {
    be_u32_at(b, 20)
}

/// The variable-directory region's offset, from the header.
pub open spec fn vars_offset_of(b: Seq<u8>) -> int {
    be_u32_at(b, 24)
}

/// The declared entry count of the block table.
pub open spec fn block_count_of(b: Seq<u8>) -> int {
    be_u32_at(b, index_offset_of(b))
}

/// The block table's count field and all its entries lie inside the buffer.
pub open spec fn block_table_ok(b: Seq<u8>) -> bool {
    &&& index_offset_of(b) + 4 <= b.len()
    &&& index_offset_of(b) + 4 + 8 * block_count_of(b) <= b.len()
}

/// The block table stored in `b`: `count` pairs of `(address, length)`.
pub open spec fn block_table_of(b: Seq<u8>) -> Seq<Pointer> {
    Seq::new(block_count_of(b) as nat, |i: int| pointer_at(b, index_offset_of(b) + 4 + 8 * i))
}

/// The free-block table's offset: immediately after the block table.
pub open spec fn free_offset_of(b: Seq<u8>) -> int {
    index_offset_of(b) + 4 + 8 * block_count_of(b)
}

/// The declared entry count of the free-block table.
pub open spec fn free_count_of(b: Seq<u8>) -> int {
    be_u32_at(b, free_offset_of(b))
}

/// The end of the block-index region; free-block parsing never reads at or
/// past this offset.
pub open spec fn index_limit_of(b: Seq<u8>) -> int {
    index_offset_of(b) + index_length_of(b)
}

/// The free-block table lies inside the buffer and inside the block-index
/// region.
pub open spec fn free_table_ok(b: Seq<u8>) -> bool {
    &&& free_offset_of(b) + 4 <= b.len()
    &&& free_offset_of(b) + 4 <= index_limit_of(b)
    &&& free_offset_of(b) + 4 + 8 * free_count_of(b) <= b.len()
    &&& free_offset_of(b) + 4 + 8 * free_count_of(b) <= index_limit_of(b)
}

/// The free-block table stored in `b`, decoded exactly as the block table.
pub open spec fn free_table_of(b: Seq<u8>) -> Seq<Pointer> {
    Seq::new(free_count_of(b) as nat, |i: int| pointer_at(b, free_offset_of(b) + 4 + 8 * i))
}

/// The declared entry count of the variable directory.
pub open spec fn vars_count_of(b: Seq<u8>) -> int {
    be_u32_at(b, vars_offset_of(b))
}

/// The offset just past the first `n` variable entries starting at `p0`,
/// or `None` if any of them runs past the buffer end. Entries are packed,
/// so each entry's position is the end of the one before it.
pub open spec fn vars_scan(b: Seq<u8>, p0: int, n: nat) -> Option<int>
    decreases n,
{
    if n == 0 {
        Some(p0)
    } else {
        match vars_scan(b, p0, (n - 1) as nat) {
            None => None,
            Some(q) => if q + 5 <= b.len() && var_end_at(b, q) <= b.len() {
                Some(var_end_at(b, q))
            } else {
                None
            },
        }
    }
}

/// All declared variable entries lie inside the buffer.
pub open spec fn vars_ok(b: Seq<u8>) -> bool {
    &&& vars_offset_of(b) + 4 <= b.len()
    &&& vars_scan(b, vars_offset_of(b) + 4, vars_count_of(b) as nat) is Some
}

/// `vs` holds exactly the first `n` variable entries stored in `b`
/// starting at `p0`, in directory order.
pub open spec fn vars_match(vs: Seq<Var>, b: Seq<u8>, p0: int, n: nat) -> bool
    decreases n,
{
    &&& vs.len() == n
    &&& n > 0 ==> match vars_scan(b, p0, (n - 1) as nat) {
        None => false,
        Some(q) => vars_match(vs.drop_last(), b, p0, (n - 1) as nat) && var_matches_at(
            vs.last(),
            b,
            q,
        ),
    }
}

/// The first structural fault found while loading `b`, in parse order;
/// `None` when `b` loads cleanly.
pub open spec fn load_error(b: Seq<u8>) -> Option<BomError> {
    if b.len() < 32 {
        Some(BomError::HeaderOutOfBounds)
    } else if !block_table_ok(b) {
        Some(BomError::BlockTableOutOfBounds)
    } else if !free_table_ok(b) {
        Some(BomError::FreeTableOutOfBounds)
    } else if !vars_ok(b) {
        Some(BomError::VarsOutOfBounds)
    } else {
        None
    }
}

/// A loaded container: the raw buffer and the tables parsed from it.
/// The buffer is immutable for the container's lifetime; every other
/// structure only refers to it through block indices.
#[derive(Debug)]
pub struct Bom {
    pub buffer: Vec<u8>,
    pub header: Header,
    pub pointers: Vec<Pointer>,
    pub free_pointers: Vec<Pointer>,
    pub variables: Vec<Var>,
}

impl Bom {
    /// The parsed tables hold exactly what the buffer's bytes say.
    pub open spec fn wf(self) -> bool {
        let b = self.buffer@;
        &&& b.len() >= 32
        &&& header_matches(self.header, b)
        &&& block_table_ok(b)
        &&& self.pointers@ == block_table_of(b)
        &&& free_table_ok(b)
        &&& self.free_pointers@ == free_table_of(b)
        &&& vars_ok(b)
        &&& vars_match(self.variables@, b, vars_offset_of(b) + 4, vars_count_of(b) as nat)
    }

    /// Loads a container from an owned buffer: decodes the header, the
    /// block table, the free-block table that follows it, and the variable
    /// directory. Fails with the first structure that runs out of bounds;
    /// on success every table is pinned to the buffer's bytes.
    #[verifier::loop_isolation(false)]
    pub fn new(buffer: Vec<u8>) -> (r: Result<Bom, BomError>)
        ensures
            match r {
                Ok(bom) => load_error(buffer@) is None && bom.buffer@ == buffer@ && bom.wf(),
                Err(e) => load_error(buffer@) == Some(e),
            },
    {
        let ghost b = buffer@;
        let len64 = buffer.len() as u64;
        let bs = buffer.as_slice();
        let header = match Header::parse(bs) {
            Some(h) => h,
            None => {
                return Err(BomError::HeaderOutOfBounds);
            },
        };

        // Block table.
        let io64 = header.index_offset as u64;
        if io64 + 4 > len64 {
            return Err(BomError::BlockTableOutOfBounds);
        }
        let count = read_be_u32(bs, header.index_offset as usize);
        if io64 + 4 + 8 * (count as u64) > len64 {
            return Err(BomError::BlockTableOutOfBounds);
        }
        proof {
            assert(block_table_ok(b));
        }
        let mut pointers: Vec<Pointer> = Vec::new();
        let mut i: u32 = 0;
        while i < count
            invariant
                i <= count,
                pointers@.len() == i,
                forall|k: int|
                    0 <= k < i ==> pointers@[k] == pointer_at(b, index_offset_of(b) + 4 + 8 * k),
            decreases count - i,
        {
            let off64 = io64 + 4 + 8 * (i as u64);
            proof {
                assert(off64 + 8 <= len64);
            }
            let off = off64 as usize;
            let p = Pointer { address: read_be_u32(bs, off), length: read_be_u32(bs, off + 4) };
            pointers.push(p);
            i += 1;
        }
        proof {
            assert(pointers@ =~= block_table_of(b));
        }

        // Free-block table, decoded identically, bounded by the buffer and
        // by the end of the block-index region.
        let fo64 = io64 + 4 + 8 * (count as u64);
        let limit64 = io64 + header.index_length as u64;
        if fo64 + 4 > len64 || fo64 + 4 > limit64 {
            return Err(BomError::FreeTableOutOfBounds);
        }
        let free_count = read_be_u32(bs, fo64 as usize);
        if fo64 + 4 + 8 * (free_count as u64) > len64 || fo64 + 4 + 8 * (free_count as u64)
            > limit64 {
            return Err(BomError::FreeTableOutOfBounds);
        }
        proof {
            assert(free_table_ok(b));
        }
        let mut free_pointers: Vec<Pointer> = Vec::new();
        let mut i: u32 = 0;
        while i < free_count
            invariant
                i <= free_count,
                free_pointers@.len() == i,
                forall|k: int|
                    0 <= k < i ==> free_pointers@[k] == pointer_at(
                        b,
                        free_offset_of(b) + 4 + 8 * k,
                    ),
            decreases free_count - i,
        {
            let off64 = fo64 + 4 + 8 * (i as u64);
            proof {
                assert(off64 + 8 <= len64);
            }
            let off = off64 as usize;
            let p = Pointer { address: read_be_u32(bs, off), length: read_be_u32(bs, off + 4) };
            free_pointers.push(p);
            i += 1;
        }
        proof {
            assert(free_pointers@ =~= free_table_of(b));
        }

        // Variable directory: count, then packed entries, each read at the
        // end of the one before it.
        let vo64 = header.vars_offset as u64;
        if vo64 + 4 > len64 {
            return Err(BomError::VarsOutOfBounds);
        }
        let var_count = read_be_u32(bs, vo64 as usize);
        let ghost p0 = vars_offset_of(b) + 4;
        let mut variables: Vec<Var> = Vec::new();
        let mut p: u64 = vo64 + 4;
        let mut k: u32 = 0;
        while k < var_count
            invariant
                k <= var_count,
                vars_scan(b, p0, k as nat) == Some(p as int),
                p <= len64,
                vars_match(variables@, b, p0, k as nat),
            decreases var_count - k,
        {
            let ghost old_vars = variables@;
            if len64 - p < 5 {
                proof {
                    assert(vars_scan(b, p0, (k + 1) as nat) is None);
                    lemma_vars_scan_none_persists(b, p0, (k + 1) as nat, vars_count_of(b) as nat);
                }
                return Err(BomError::VarsOutOfBounds);
            }
            let pu = p as usize;
            let length = bs[pu + 4];
            if len64 - p - 5 < length as u64 {
                proof {
                    assert(vars_scan(b, p0, (k + 1) as nat) is None);
                    lemma_vars_scan_none_persists(b, p0, (k + 1) as nat, vars_count_of(b) as nat);
                }
                return Err(BomError::VarsOutOfBounds);
            }
            let index = read_be_u32(bs, pu);
            let name = slice_to_vec(slice_subrange(bs, pu + 5, pu + 5 + length as usize));
            let v = Var { index, length, name };
            proof {
                assert(var_matches_at(v, b, p as int));
            }
            variables.push(v);
            p = p + 5 + length as u64;
            k += 1;
            proof {
                assert(vars_scan(b, p0, k as nat) == Some(p as int));
                assert(variables@.drop_last() =~= old_vars);
                assert(vars_match(variables@, b, p0, k as nat));
            }
        }
        proof {
            assert(vars_ok(b));
        }

        Ok(Bom { buffer, header, pointers, free_pointers, variables })
    }

    /// What a variable name resolves to: its directory entry's block index
    /// looked up in the block table, if both steps succeed.
    pub open spec fn pointer_for_var_spec(self, name: Seq<u8>) -> Option<Pointer> {
        match var_lookup(self.variables@, name) {
            None => None,
            Some(i) => if i < self.pointers@.len() {
                Some(self.pointers@[i as int])
            } else {
                None
            },
        }
    }

    /// Bounds-checked block lookup: the table entry at `index`, or `None`
    /// for an index at or past the table's length.
    pub fn pointer(&self, index: u32) -> (r: Option<&Pointer>)
        ensures
            match r {
                Some(p) => index < self.pointers@.len() && *p == self.pointers@[index as int],
                None => index >= self.pointers@.len(),
            },
    {
        if (index as usize) < self.pointers.len() {
            Some(&self.pointers[index as usize])
        } else {
            None
        }
    }

    /// The block index bound to `name` in the variable directory; on
    /// duplicate names the last entry wins.
    #[verifier::loop_isolation(false)]
    pub fn variable(&self, name: &str) -> (r: Option<u32>)
        ensures
            r == var_lookup(self.variables@, name.spec_bytes()),
    {
        let nm = name.as_bytes();
        let mut found: Option<u32> = None;
        let n = self.variables.len();
        let mut k: usize = 0;
        while k < n
            invariant
                k <= n,
                found == var_lookup(self.variables@.take(k as int), nm@),
            decreases n - k,
        {
            let v = &self.variables[k];
            if bytes_eq(v.name.as_slice(), nm) {
                found = Some(v.index);
            }
            proof {
                assert(self.variables@.take((k + 1) as int).drop_last() =~= self.variables@.take(
                    k as int,
                ));
                assert(self.variables@.take((k + 1) as int).last() == self.variables@[k as int]);
            }
            k += 1;
        }
        proof {
            assert(self.variables@.take(n as int) =~= self.variables@);
        }
        found
    }

    /// Composes variable lookup with block lookup: the block a named
    /// variable points at, or `None` if the name is absent or its index
    /// does not resolve.
    pub fn pointer_for_var(&self, name: &str) -> (r: Option<&Pointer>)
        ensures
            match r {
                Some(p) => self.pointer_for_var_spec(name.spec_bytes()) == Some(*p),
                None => self.pointer_for_var_spec(name.spec_bytes()) is None,
            },
    {
        match self.variable(name) {
            Some(index) => self.pointer(index),
            None => None,
        }
    }

    /// Walks the tree rooted at block `pointer_index` and folds `reduce`
    /// over every reachable usable leaf key/value pair, in traversal
    /// order, starting from `initial_value`.
    #[verifier::loop_isolation(false)]
    pub fn reduce_tree<R: View, D: Combiner<R>>(
        &self,
        pointer_index: u32,
        initial_value: R,
        reduce: &D,
    ) -> (r: R)
        ensures
            r@ == fold_pairs(
                reduce,
                initial_value@,
                tree_pairs(
                    self.buffer@,
                    self.pointers@,
                    pointer_index as int,
                    self.pointers@.len() as nat,
                ),
            ),
    {
        let ghost ps = tree_pairs(
            self.buffer@,
            self.pointers@,
            pointer_index as int,
            self.pointers@.len() as nat,
        );
        let pairs = walk_tree(
            &self.buffer,
            &self.pointers,
            pointer_index,
            self.pointers.len(),
            Vec::new(),
        );
        proof {
            assert(views_of(pairs@) =~= ps);
        }
        let mut r = initial_value;
        let mut idx: usize = 0;
        let n = pairs.len();
        while idx < n
            invariant
                idx <= n,
                r@ == fold_pairs(reduce, initial_value@, views_of(pairs@).take(idx as int)),
            decreases n - idx,
        {
            let (kb, vb) = pairs[idx];
            r = reduce.combine(r, kb, vb);
            proof {
                let vs = views_of(pairs@);
                assert(vs.take((idx + 1) as int).drop_last() =~= vs.take(idx as int));
                assert(vs.take((idx + 1) as int).last() == (kb@, vb@));
            }
            idx += 1;
        }
        proof {
            assert(views_of(pairs@).take(n as int) =~= views_of(pairs@));
        }
        r
    }

    /// Resolves `var` to its tree root and folds `reduce` over the tree
    /// below the root's child block. Fails — with a message naming the
    /// variable — iff the name does not resolve to a block, or the root
    /// record runs past the buffer end; per-entry corruption inside the
    /// walk never fails the fold.
    pub fn reduce_tree_for_variable<R: View, D: Combiner<R>>(
        &self,
        var: &str,
        initial_value: R,
        reduce: &D,
    ) -> (r: Result<R, String>)
        ensures
            match self.pointer_for_var_spec(var.spec_bytes()) {
                None => r matches Err(m) && m@ == "Variable not found: "@ + var@,
                Some(p) => if p.address + 21 <= self.buffer@.len() {
                    r matches Ok(v) && v@ == fold_pairs(
                        reduce,
                        initial_value@,
                        tree_pairs(
                            self.buffer@,
                            self.pointers@,
                            tree_child_at(self.buffer@, p.address as int),
                            self.pointers@.len() as nat,
                        ),
                    )
                } else {
                    r matches Err(m) && m@ == "Tree root out of bounds: "@ + var@
                },
            },
    {
        match self.pointer_for_var(var) {
            None => {
                let mut m = "Variable not found: ".to_owned();
                m.append(var);
                Err(m)
            },
            Some(p) => {
                let addr = p.address;
                if addr as u64 + 21 > self.buffer.len() as u64 {
                    let mut m = "Tree root out of bounds: ".to_owned();
                    m.append(var);
                    Err(m)
                } else {
                    let child = read_be_u32(self.buffer.as_slice(), addr as usize + 8);
                    Ok(self.reduce_tree(child, initial_value, reduce))
                }
            },
        }
    }

    /// Walks the tree rooted at block `pointer_index` and collects
    /// `mapper`'s output for every reachable usable leaf key/value pair,
    /// in traversal order.
    #[verifier::loop_isolation(false)]
    pub fn map_tree<V: View, M: PairMapper<V>>(&self, pointer_index: u32, mapper: &M) -> (r: Vec<
        V,
    >)
        ensures
            elem_views(r@) == map_pairs(
                mapper,
                tree_pairs(
                    self.buffer@,
                    self.pointers@,
                    pointer_index as int,
                    self.pointers@.len() as nat,
                ),
            ),
    {
        let ghost ps = tree_pairs(
            self.buffer@,
            self.pointers@,
            pointer_index as int,
            self.pointers@.len() as nat,
        );
        let pairs = walk_tree(
            &self.buffer,
            &self.pointers,
            pointer_index,
            self.pointers.len(),
            Vec::new(),
        );
        proof {
            assert(views_of(pairs@) =~= ps);
        }
        let mut out: Vec<V> = Vec::new();
        let mut idx: usize = 0;
        let n = pairs.len();
        while idx < n
            invariant
                idx <= n,
                out@.len() == idx,
                elem_views(out@) == map_pairs(mapper, views_of(pairs@).take(idx as int)),
            decreases n - idx,
        {
            let (kb, vb) = pairs[idx];
            let ghost prev = out@;
            out.push(mapper.transform(kb, vb));
            proof {
                let vs = views_of(pairs@);
                assert forall|i: int| 0 <= i < idx + 1 implies elem_views(out@)[i] == map_pairs(
                    mapper,
                    vs.take((idx + 1) as int),
                )[i] by {
                    if i < idx {
                        assert(elem_views(prev)[i] == map_pairs(mapper, vs.take(idx as int))[i]);
                    }
                    assert(vs.take((idx + 1) as int)[i] == vs[i]);
                }
                assert(elem_views(out@) =~= map_pairs(mapper, vs.take((idx + 1) as int)));
            }
            idx += 1;
        }
        proof {
            assert(views_of(pairs@).take(n as int) =~= views_of(pairs@));
        }
        out
    }

    /// Resolves `var` to its tree root and collects `mapper`'s outputs
    /// over the tree below the root's child block, in traversal order.
    /// Fails under exactly the conditions of the fold by variable.
    pub fn map_tree_for_variable<V: View, M: PairMapper<V>>(&self, var: &str, mapper: &M) -> (r:
        Result<Vec<V>, String>)
        ensures
            match self.pointer_for_var_spec(var.spec_bytes()) {
                None => r matches Err(m) && m@ == "Variable not found: "@ + var@,
                Some(p) => if p.address + 21 <= self.buffer@.len() {
                    r matches Ok(v) && elem_views(v@) == map_pairs(
                        mapper,
                        tree_pairs(
                            self.buffer@,
                            self.pointers@,
                            tree_child_at(self.buffer@, p.address as int),
                            self.pointers@.len() as nat,
                        ),
                    )
                } else {
                    r matches Err(m) && m@ == "Tree root out of bounds: "@ + var@
                },
            },
    {
        match self.pointer_for_var(var) {
            None => {
                let mut m = "Variable not found: ".to_owned();
                m.append(var);
                Err(m)
            },
            Some(p) => {
                let addr = p.address;
                if addr as u64 + 21 > self.buffer.len() as u64 {
                    let mut m = "Tree root out of bounds: ".to_owned();
                    m.append(var);
                    Err(m)
                } else {
                    let child = read_be_u32(self.buffer.as_slice(), addr as usize + 8);
                    Ok(self.map_tree(child, mapper))
                }
            },
        }
    }
}

/// The block index bound to `name` in a variable directory; on duplicate
/// names the last entry wins.
pub open spec fn var_lookup(vs: Seq<Var>, name: Seq<u8>) -> Option<u32>
    decreases vs.len(),
{
    if vs.len() == 0 {
        None
    } else if vs.last().name@ == name {
        Some(vs.last().index)
    } else {
        var_lookup(vs.drop_last(), name)
    }
}

/// Law: a buffer that loads cleanly keeps its whole free-block table —
/// count field and entries — inside the block-index region, so free-block
/// parsing never reads at or past `index_offset + index_length`. The
/// free-block count itself is unconstrained: it need not complement the
/// block count.
pub proof fn lemma_free_table_in_index_region(b: Seq<u8>)
    requires
        load_error(b) is None,
    ensures
        index_offset_of(b) <= free_offset_of(b),
        free_offset_of(b) + 4 + 8 * free_count_of(b) <= index_offset_of(b) + index_length_of(b),
{
}

/// Law: a tree map is deterministic — any two outcomes that meet the map
/// contract for the same container, root block, and mapper have the same
/// element views, so repeated runs over one buffer agree in content and
/// order.
pub proof fn lemma_map_deterministic<V: View, M: PairMapper<V>>(
    bom: Bom,
    pointer_index: u32,
    m: &M,
    r1: Seq<V>,
    r2: Seq<V>,
)
    requires
        elem_views(r1) == map_pairs(
            m,
            tree_pairs(bom.buffer@, bom.pointers@, pointer_index as int, bom.pointers@.len() as nat),
        ),
        elem_views(r2) == map_pairs(
            m,
            tree_pairs(bom.buffer@, bom.pointers@, pointer_index as int, bom.pointers@.len() as nat),
        ),
    ensures
        elem_views(r1) == elem_views(r2),
{
}

/// Once a variable-entry scan has failed, scanning any larger entry count
/// fails too.
proof fn lemma_vars_scan_none_persists(b: Seq<u8>, p0: int, m: nat, n: nat)
    requires
        m <= n,
        vars_scan(b, p0, m) is None,
    ensures
        vars_scan(b, p0, n) is None,
    decreases n,
{
    if n > m {
        lemma_vars_scan_none_persists(b, p0, m, (n - 1) as nat);
    }
}

} // verus!
