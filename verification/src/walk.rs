//! The tree-traversal engine.
//!
//! A tree is entered at a block index and linearized into a single
//! left-to-right sequence of leaf key/value byte spans: a leaf node
//! contributes its usable pairs, an internal node the pairs of its one
//! child subtree, and every node is followed by its forward-sibling chain.
//!
//! Corruption never aborts a walk. A node whose block index or byte range
//! cannot be resolved contributes nothing; a leaf pair whose key or value
//! block is missing, empty, or out of range is skipped; an internal node
//! that claims entries is treated as childless.
//!
//! Every step of a walk enters a block of the table, and a well-formed
//! tree enters each block at most once, so a fuel of one unit per table
//! entry never truncates a well-formed walk. The fuel guarantees that a
//! crafted forward-link cycle exhausts its budget instead of hanging.

use vstd::prelude::*;
use crate::bytes::be_u32_at;
use crate::bytes::read_be_u16;
use crate::bytes::read_be_u32;
use crate::records::Pointer;
use crate::records::tree_entry_at;
use crate::records::tree_entry_indices_at;
use vstd::slice::slice_subrange;

verus! {

/// The leaf pair whose index record sits in `b` at offset `q` is usable:
/// the record itself is in range, both block indices resolve, and both
/// blocks are nonempty byte ranges that lie inside the buffer.
pub open spec fn pair_usable(b: Seq<u8>, ptrs: Seq<Pointer>, q: int) -> bool {
    &&& q + 8 <= b.len()
    &&& {
        let ind = tree_entry_indices_at(b, q);
        &&& ind.key_index < ptrs.len()
        &&& ind.value_index < ptrs.len()
        &&& ptrs[ind.key_index as int].length > 0
        &&& ptrs[ind.value_index as int].length > 0
        &&& ptrs[ind.key_index as int].address + ptrs[ind.key_index as int].length <= b.len()
        &&& ptrs[ind.value_index as int].address + ptrs[ind.value_index as int].length <= b.len()
    }
}

/// The key and value byte spans of the usable leaf pair at offset `q`.
pub open spec fn pair_at(b: Seq<u8>, ptrs: Seq<Pointer>, q: int) -> (Seq<u8>, Seq<u8>) {
    let ind = tree_entry_indices_at(b, q);
    let kp = ptrs[ind.key_index as int];
    let vp = ptrs[ind.value_index as int];
    (
        b.subrange(kp.address as int, kp.address + kp.length),
        b.subrange(vp.address as int, vp.address + vp.length),
    )
}

/// What the leaf pair at offset `q` contributes to a walk: its spans if it
/// is usable, nothing otherwise.
pub open spec fn pair_seq(b: Seq<u8>, ptrs: Seq<Pointer>, q: int) -> Seq<(Seq<u8>, Seq<u8>)> {
    if pair_usable(b, ptrs, q) {
        seq![pair_at(b, ptrs, q)]
    } else {
        Seq::empty()
    }
}

/// The pairs contributed by the first `n` index records of a leaf whose
/// records start at offset `pos`, in record order.
pub open spec fn leaf_pairs(b: Seq<u8>, ptrs: Seq<Pointer>, pos: int, n: nat) -> Seq<
    (Seq<u8>, Seq<u8>),
>
    decreases n,
{
    if n == 0 {
        Seq::empty()
    } else {
        leaf_pairs(b, ptrs, pos, (n - 1) as nat) + pair_seq(b, ptrs, pos + 8 * (n - 1))
    }
}

/// How many of the first `n` leaf index records at `pos` are usable.
pub open spec fn usable_count(b: Seq<u8>, ptrs: Seq<Pointer>, pos: int, n: nat) -> nat
    decreases n,
{
    if n == 0 {
        0
    } else {
        usable_count(b, ptrs, pos, (n - 1) as nat) + if pair_usable(b, ptrs, pos + 8 * (n - 1)) {
            1nat
        } else {
            0nat
        }
    }
}

/// Law: a leaf with `n` declared index records contributes exactly its
/// usable records — never more than `n` — so one corrupt record is
/// skipped without losing the valid ones or aborting the walk.
pub proof fn lemma_leaf_pairs_counts(b: Seq<u8>, ptrs: Seq<Pointer>, pos: int, n: nat)
    ensures
        leaf_pairs(b, ptrs, pos, n).len() == usable_count(b, ptrs, pos, n),
        usable_count(b, ptrs, pos, n) <= n,
    decreases n,
{
    if n > 0 {
        lemma_leaf_pairs_counts(b, ptrs, pos, (n - 1) as nat);
    }
}

/// The sequence of leaf key/value pairs reachable from the node at block
/// index `index`: the node's own contribution (leaf pairs, or the child
/// subtree of a well-shaped internal node), followed by its forward
/// sibling's. `fuel` bounds the length of any child/sibling chain.
pub open spec fn tree_pairs(b: Seq<u8>, ptrs: Seq<Pointer>, index: int, fuel: nat) -> Seq<
    (Seq<u8>, Seq<u8>),
>
    decreases fuel,
{
    if fuel == 0 {
        Seq::empty()
    } else if !(0 <= index < ptrs.len()) {
        Seq::empty()
    } else {
        let p = ptrs[index];
        if p.address + 12 > b.len() {
            Seq::empty()
        } else {
            let e = tree_entry_at(b, p.address as int);
            let own = if e.is_leaf > 0 {
                leaf_pairs(b, ptrs, p.address + 12, e.count as nat)
            } else if e.count == 0 {
                if p.address + p.length + 4 <= b.len() {
                    tree_pairs(b, ptrs, be_u32_at(b, p.address + p.length), (fuel - 1) as nat)
                } else {
                    Seq::empty()
                }
            } else {
                Seq::empty()
            };
            let sib = if e.forward != 0 {
                tree_pairs(b, ptrs, e.forward as int, (fuel - 1) as nat)
            } else {
                Seq::empty()
            };
            own + sib
        }
    }
}

/// The key/value views of a sequence of borrowed pairs.
pub open spec fn views_of(v: Seq<(&[u8], &[u8])>) -> Seq<(Seq<u8>, Seq<u8>)> {
    Seq::new(v.len(), |i: int| (v[i].0@, v[i].1@))
}

/// Walks the tree rooted at block `index` and appends every reachable
/// usable leaf pair, as borrowed spans of `buffer`, to `acc`.
#[verifier::loop_isolation(false)]
pub(crate) fn walk_tree<'a>(
    buffer: &'a Vec<u8>,
    pointers: &Vec<Pointer>,
    index: u32,
    fuel: usize,
    acc: Vec<(&'a [u8], &'a [u8])>,
) -> (r: Vec<(&'a [u8], &'a [u8])>)
    ensures
        views_of(r@) == views_of(acc@) + tree_pairs(buffer@, pointers@, index as int, fuel as nat),
    decreases fuel,
{
    let ghost all = tree_pairs(buffer@, pointers@, index as int, fuel as nat);
    if fuel == 0 {
        proof {
            assert(views_of(acc@) + all =~= views_of(acc@));
        }
        return acc;
    }
    let len = buffer.len();
    if !((index as usize) < pointers.len()) {
        proof {
            assert(views_of(acc@) + all =~= views_of(acc@));
        }
        return acc;
    }
    let p = pointers[index as usize];
    if p.address as u64 + 12 > len as u64 {
        proof {
            assert(views_of(acc@) + all =~= views_of(acc@));
        }
        return acc;
    }
    let a = p.address as usize;
    let bs = buffer.as_slice();
    let is_leaf = read_be_u16(bs, a);
    let count = read_be_u16(bs, a + 2);
    let forward = read_be_u32(bs, a + 4);
    let ghost e = tree_entry_at(buffer@, p.address as int);
    proof {
        assert(is_leaf == e.is_leaf && count == e.count && forward == e.forward);
    }
    let mut acc = acc;
    let ghost acc0 = acc@;
    let ghost own = if e.is_leaf > 0 {
        leaf_pairs(buffer@, pointers@, p.address + 12, e.count as nat)
    } else if e.count == 0 {
        if p.address + p.length + 4 <= buffer@.len() {
            tree_pairs(buffer@, pointers@, be_u32_at(buffer@, p.address + p.length), (fuel - 1) as nat)
        } else {
            Seq::empty()
        }
    } else {
        Seq::empty()
    };
    if is_leaf > 0 {
        let mut j: u16 = 0;
        while j < count
            invariant
                j <= count,
                views_of(acc@) == views_of(acc0) + leaf_pairs(
                    buffer@,
                    pointers@,
                    p.address + 12,
                    j as nat,
                ),
            decreases count - j,
        {
            let ghost q = p.address + 12 + 8 * (j as int);
            let ghost before = acc@;
            let pos64 = p.address as u64 + 12 + 8 * (j as u64);
            if pos64 + 8 <= len as u64 {
                let pos = pos64 as usize;
                let value_index = read_be_u32(bs, pos);
                let key_index = read_be_u32(bs, pos + 4);
                proof {
                    assert(tree_entry_indices_at(buffer@, q).value_index == value_index);
                    assert(tree_entry_indices_at(buffer@, q).key_index == key_index);
                }
                if (key_index as usize) < pointers.len() && (value_index as usize)
                    < pointers.len() {
                    let kp = pointers[key_index as usize];
                    let vp = pointers[value_index as usize];
                    if kp.length > 0 && vp.length > 0 && kp.address as u64 + kp.length as u64
                        <= len as u64 && vp.address as u64 + vp.length as u64 <= len as u64 {
                        let key = slice_subrange(
                            bs,
                            kp.address as usize,
                            kp.address as usize + kp.length as usize,
                        );
                        let value = slice_subrange(
                            bs,
                            vp.address as usize,
                            vp.address as usize + vp.length as usize,
                        );
                        acc.push((key, value));
                        proof {
                            assert(pair_usable(buffer@, pointers@, q));
                            assert(pair_at(buffer@, pointers@, q) == (key@, value@));
                            assert(views_of(acc@) =~= views_of(before) + pair_seq(
                                buffer@,
                                pointers@,
                                q,
                            ));
                        }
                    } else {
                        proof {
                            assert(!pair_usable(buffer@, pointers@, q));
                            assert(views_of(acc@) =~= views_of(before) + pair_seq(
                                buffer@,
                                pointers@,
                                q,
                            ));
                        }
                    }
                } else {
                    proof {
                        assert(!pair_usable(buffer@, pointers@, q));
                        assert(views_of(acc@) =~= views_of(before) + pair_seq(
                            buffer@,
                            pointers@,
                            q,
                        ));
                    }
                }
            } else {
                proof {
                    assert(!pair_usable(buffer@, pointers@, q));
                    assert(views_of(acc@) =~= views_of(before) + pair_seq(buffer@, pointers@, q));
                }
            }
            proof {
                assert(views_of(acc@) =~= views_of(acc0) + leaf_pairs(
                    buffer@,
                    pointers@,
                    p.address + 12,
                    (j + 1) as nat,
                ));
            }
            j += 1;
        }
        proof {
            assert(views_of(acc@) == views_of(acc0) + own);
        }
    } else if count == 0 {
        let cpos64 = p.address as u64 + p.length as u64;
        if cpos64 + 4 <= len as u64 {
            let cpos = cpos64 as usize;
            let child = read_be_u32(bs, cpos);
            acc = walk_tree(buffer, pointers, child, fuel - 1, acc);
        } else {
            proof {
                assert(views_of(acc@) =~= views_of(acc0) + own);
            }
        }
    } else {
        proof {
            assert(views_of(acc@) =~= views_of(acc0) + own);
        }
    }
    proof {
        assert(views_of(acc@) == views_of(acc0) + own);
    }
    if forward != 0 {
        let ghost before_sib = acc@;
        acc = walk_tree(buffer, pointers, forward, fuel - 1, acc);
        proof {
            let sib = tree_pairs(buffer@, pointers@, e.forward as int, (fuel - 1) as nat);
            assert(views_of(acc@) == views_of(before_sib) + sib);
            assert(views_of(acc0) + own + sib =~= views_of(acc0) + (own + sib));
            assert(all == own + sib);
        }
    } else {
        proof {
            assert(views_of(acc0) + own + Seq::<(Seq<u8>, Seq<u8>)>::empty() =~= views_of(acc0)
                + own);
            assert(all == own + Seq::<(Seq<u8>, Seq<u8>)>::empty());
        }
    }
    acc
}

} // verus!
