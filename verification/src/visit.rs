//! The capabilities a caller hands to a traversal: a combiner that folds an
//! accumulator over leaf key/value pairs, and a mapper that turns one pair
//! into one output value.
//!
//! Each exec method is pinned to a spec-level counterpart, so a traversal's
//! result can be stated exactly as a fold of that spec function over the
//! pair sequence the tree denotes.

use vstd::prelude::*;
use vstd::slice::slice_to_vec;

verus! {

/// A fold step over one leaf key/value pair: combines an accumulator of
/// type `R` with the two raw byte spans.
pub trait Combiner<R: View> {
    /// What one fold step yields, stated over views.
    spec fn spec_combine(&self, acc: R::V, key: Seq<u8>, value: Seq<u8>) -> R::V;

    /// Performs one fold step.
    fn combine(&self, acc: R, key: &[u8], value: &[u8]) -> (r: R)
        ensures
            r@ == self.spec_combine(acc@, key@, value@),
    ;
}

/// A transformation of one leaf key/value pair into one output value.
pub trait PairMapper<V: View> {
    /// What the transformation yields, stated over views.
    spec fn spec_transform(&self, key: Seq<u8>, value: Seq<u8>) -> V::V;

    /// Transforms one pair.
    fn transform(&self, key: &[u8], value: &[u8]) -> (r: V)
        ensures
            r@ == self.spec_transform(key@, value@),
    ;
}

/// The left fold of a combiner over a sequence of key/value pairs,
/// starting from `init`: pairs are combined in sequence order.
pub open spec fn fold_pairs<R: View, D: Combiner<R>>(
    d: &D,
    init: R::V,
    pairs: Seq<(Seq<u8>, Seq<u8>)>,
) -> R::V
    decreases pairs.len(),
{
    if pairs.len() == 0 {
        init
    } else {
        d.spec_combine(fold_pairs(d, init, pairs.drop_last()), pairs.last().0, pairs.last().1)
    }
}

/// The views of the elements of a sequence.
pub open spec fn elem_views<V: View>(s: Seq<V>) -> Seq<V::V> {
    Seq::new(s.len(), |i: int| s[i]@)
}

/// The outputs of a mapper over a sequence of key/value pairs, in order.
pub open spec fn map_pairs<V: View, M: PairMapper<V>>(
    m: &M,
    pairs: Seq<(Seq<u8>, Seq<u8>)>,
) -> Seq<V::V> {
    Seq::new(pairs.len(), |i: int| m.spec_transform(pairs[i].0, pairs[i].1))
}

/// A combiner that counts pairs: each step adds one to the accumulator,
/// saturating at `u64::MAX`.
pub struct PairCounter;

impl Combiner<u64> for PairCounter {
    open spec fn spec_combine(&self, acc: u64, key: Seq<u8>, value: Seq<u8>) -> u64 {
        if acc < u64::MAX {
            (acc + 1) as u64
        } else {
            acc
        }
    }

    fn combine(&self, acc: u64, key: &[u8], value: &[u8]) -> (r: u64) {
        if acc < u64::MAX {
            acc + 1
        } else {
            acc
        }
    }
}

/// Law: folding `PairCounter` over a pair sequence counts every pair —
/// the result is the starting count plus the number of pairs, whenever
/// that sum cannot saturate.
pub proof fn lemma_counter_counts(c: &PairCounter, init: u64, pairs: Seq<(Seq<u8>, Seq<u8>)>)
    requires
        init + pairs.len() <= u64::MAX,
    ensures
        fold_pairs(c, init, pairs) == init + pairs.len(),
    decreases pairs.len(),
{
    if pairs.len() > 0 {
        lemma_counter_counts(c, init, pairs.drop_last());
    }
}

/// Law: a mapper yields exactly one output per pair, in pair order, so a
/// map over a tree has the same length as the pair sequence a counting
/// fold counts.
pub proof fn lemma_map_pairs_len<V: View, M: PairMapper<V>>(m: &M, pairs: Seq<(Seq<u8>, Seq<u8>)>)
    ensures
        map_pairs(m, pairs).len() == pairs.len(),
{
}

/// A mapper that copies both byte spans of a pair into owned vectors.
pub struct EntryCopier;

impl PairMapper<(Vec<u8>, Vec<u8>)> for EntryCopier {
    open spec fn spec_transform(&self, key: Seq<u8>, value: Seq<u8>) -> (Seq<u8>, Seq<u8>) {
        (key, value)
    }

    fn transform(&self, key: &[u8], value: &[u8]) -> (r: (Vec<u8>, Vec<u8>)) {
        (slice_to_vec(key), slice_to_vec(value))
    }
}

} // verus!
