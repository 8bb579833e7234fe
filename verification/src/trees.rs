//! Tree-coded values.
//!
//! A tree is an array of pairs, one pair for each inner node: the entry for
//! `false`, then the entry for `true`. A positive entry is the position of
//! another pair, which lies behind; any other is a negated leaf.
use crate::bool_decoder;
use crate::bool_decoder::BoolDecoder;
use crate::range_coder;
use crate::range_coder::DecState;
use vstd::prelude::*;

verus! {

/// Every entry is a leaf or the position of a pair that lies behind it.
pub open spec fn tree_ok(tree: Seq<i8>) -> bool {
    &&& tree.len() >= 2
    &&& forall|i: int|
        0 <= i < tree.len() ==> #[trigger] tree[i] <= 0 || i < tree[i] < tree.len() - 1
}

/// The leaf that stands in the stream at `d`, read from the pair at `i` on,
/// and what follows it.
pub open spec fn read_tree_from(d: DecState, tree: Seq<i8>, probs: Seq<u8>, i: int) -> (
    int,
    DecState,
)
    decreases tree.len() - i,
{
    let prob = probs[i / 2];
    let next = tree[i + bool_decoder::bit_value(range_coder::dec_bit(d, prob))] as int;
    let d1 = range_coder::dec_next(d, prob);
    if next <= 0 {
        (-next, d1)
    } else if i < next < tree.len() {
        read_tree_from(d1, tree, probs, next)
    } else {
        (0, d1)
    }
}

/// A leaf is one of the tree's.
pub proof fn lemma_leaf_bound(d: DecState, tree: Seq<i8>, probs: Seq<u8>, i: int, most: int)
    requires
        tree_ok(tree),
        0 <= i < tree.len() - 1,
        forall|k: int| 0 <= k < tree.len() ==> -most <= #[trigger] tree[k],
    ensures
        0 <= read_tree_from(d, tree, probs, i).0 <= most,
    decreases tree.len() - i,
{
    let prob = probs[i / 2];
    let next = tree[i + bool_decoder::bit_value(range_coder::dec_bit(d, prob))] as int;
    if next > 0 {
        lemma_leaf_bound(range_coder::dec_next(d, prob), tree, probs, next, most);
    }
}

/// Reads a leaf from the pair at `start` on.
pub fn read_tree_at(dec: &mut BoolDecoder<'_>, tree: &[i8], probs: &[u8], start: usize) -> (leaf: u8)
    requires
        old(dec).wf(),
        tree_ok(tree@),
        2 * probs@.len() >= tree@.len(),
        start < tree@.len() - 1,
    ensures
        final(dec).wf(),
        leaf == read_tree_from(old(dec)@, tree@, probs@, start as int).0,
        final(dec)@ == read_tree_from(old(dec)@, tree@, probs@, start as int).1,
        final(dec)@.data == old(dec)@.data,
        leaf <= 128,
{
    let len: usize = tree.len();
    let mut i: usize = start;
    let ghost d0 = dec@;
    loop
        invariant
            dec.wf(),
            d0 == old(dec)@,
            dec@.data == d0.data,
            tree_ok(tree@),
            2 * probs@.len() >= tree@.len(),
            len == tree@.len(),
            i < len - 1,
            read_tree_from(dec@, tree@, probs@, i as int) == read_tree_from(
                d0,
                tree@,
                probs@,
                start as int,
            ),
        decreases tree@.len() - i,
    {
        let b: bool = dec.get_bool(probs[i / 2]);
        let next: i8 = if b {
            tree[i + 1]
        } else {
            tree[i]
        };
        if next <= 0 {
            return (-(next as i16)) as u8;
        }
        i = next as usize;
    }
}

/// Reads a leaf.
pub fn decode_tree(dec: &mut BoolDecoder<'_>, tree: &[i8], probs: &[u8]) -> (leaf: u8)
    requires
        old(dec).wf(),
        tree_ok(tree@),
        2 * probs@.len() >= tree@.len(),
    ensures
        final(dec).wf(),
        leaf == read_tree_from(old(dec)@, tree@, probs@, 0).0,
        final(dec)@ == read_tree_from(old(dec)@, tree@, probs@, 0).1,
        final(dec)@.data == old(dec)@.data,
        leaf <= 128,
{
    read_tree_at(dec, tree, probs, 0)
}

/// The way from the pair at `i` to `leaf`: at each pair its number and the
/// branch that is taken.
pub open spec fn tree_path(tree: Seq<i8>, i: int, leaf: int) -> Option<Seq<(usize, bool)>>
    decreases tree.len() - i, 1int,
{
    match branch_path(tree, i, false, leaf) {
        Some(path) => Some(path),
        None => branch_path(tree, i, true, leaf),
    }
}

/// The way to `leaf` that takes branch `bit` at the pair at `i`.
pub open spec fn branch_path(tree: Seq<i8>, i: int, bit: bool, leaf: int) -> Option<
    Seq<(usize, bool)>,
>
    decreases tree.len() - i, 0int,
{
    let next = tree[i + bool_decoder::bit_value(bit)] as int;
    let step = seq![((i / 2) as usize, bit)];
    if next <= 0 {
        if -next == leaf {
            Some(step)
        } else {
            None
        }
    } else if i < next < tree.len() {
        match tree_path(tree, next, leaf) {
            Some(rest) => Some(step + rest),
            None => None,
        }
    } else {
        None
    }
}

/// The booleans that take `path` under `probs`.
pub open spec fn path_ops(path: Seq<(usize, bool)>, probs: Seq<u8>) -> Seq<(u8, bool)> {
    path.map_values(|step: (usize, bool)| (probs[step.0 as int], step.1))
}

/// The booleans that write `leaf` from the pair at `i` on.
pub open spec fn leaf_ops(tree: Seq<i8>, probs: Seq<u8>, i: int, leaf: int) -> Seq<(u8, bool)> {
    path_ops(tree_path(tree, i, leaf)->0, probs)
}

/// Looks for `leaf` below the pair at `i` and puts the way there behind `path`.
fn descend(tree: &[i8], i: usize, leaf: u8, path: &mut Vec<(usize, bool)>) -> (found: bool)
    requires
        tree_ok(tree@),
        i < tree@.len() - 1,
    ensures
        found == tree_path(tree@, i as int, leaf as int) is Some,
        final(path)@ == if found {
            old(path)@ + tree_path(tree@, i as int, leaf as int)->0
        } else {
            old(path)@
        },
    decreases tree@.len() - i, 1int,
{
    descend_branch(tree, i, false, leaf, path) || descend_branch(tree, i, true, leaf, path)
}

fn descend_branch(
    tree: &[i8],
    i: usize,
    bit: bool,
    leaf: u8,
    path: &mut Vec<(usize, bool)>,
) -> (found: bool)
    requires
        tree_ok(tree@),
        i < tree@.len() - 1,
    ensures
        found == branch_path(tree@, i as int, bit, leaf as int) is Some,
        final(path)@ == if found {
            old(path)@ + branch_path(tree@, i as int, bit, leaf as int)->0
        } else {
            old(path)@
        },
    decreases tree@.len() - i, 0int,
{
    let next: i8 = if bit {
        tree[i + 1]
    } else {
        tree[i]
    };
    if next <= 0 {
        if (-(next as i16)) as u8 == leaf {
            path.push((i / 2, bit));
            assert(path@ =~= old(path)@ + seq![((i as int / 2) as usize, bit)]);
            return true;
        }
        return false;
    }
    path.push((i / 2, bit));
    let ghost pushed = path@;
    if descend(tree, next as usize, leaf, path) {
        assert(path@ =~= old(path)@ + (seq![((i as int / 2) as usize, bit)] + tree_path(
            tree@,
            next as int,
            leaf as int,
        )->0));
        return true;
    }
    assert(path@ == pushed);
    let _ = path.pop();
    assert(path@ =~= old(path)@);
    false
}

/// The way from the pair at `start` to `leaf`, or nothing where there is none.
pub fn path_to_leaf(tree: &[i8], start: usize, leaf: u8) -> (r: Option<Vec<(usize, bool)>>)
    requires
        tree_ok(tree@),
        start < tree@.len() - 1,
    ensures
        match r {
            Some(path) => tree_path(tree@, start as int, leaf as int) == Some(path@),
            None => tree_path(tree@, start as int, leaf as int) is None,
        },
{
    let mut path: Vec<(usize, bool)> = Vec::new();
    if descend(tree, start, leaf, &mut path) {
        assert(path@ =~= tree_path(tree@, start as int, leaf as int)->0);
        Some(path)
    } else {
        None
    }
}

/// Every step of a way names a pair of the tree.
pub proof fn lemma_path_in_tree(tree: Seq<i8>, i: int, leaf: int)
    requires
        tree_ok(tree),
        0 <= i < tree.len() - 1,
        tree_path(tree, i, leaf) is Some,
    ensures
        forall|k: int|
            0 <= k < (tree_path(tree, i, leaf)->0).len() ==> (
            #[trigger] (tree_path(tree, i, leaf)->0)[k]).0 * 2 < tree.len(),
    decreases tree.len() - i,
{
    let bit = branch_path(tree, i, false, leaf) is None;
    let path = branch_path(tree, i, bit, leaf)->0;
    assert(tree_path(tree, i, leaf) == branch_path(tree, i, bit, leaf));
    let next = tree[i + bool_decoder::bit_value(bit)] as int;
    if next > 0 {
        lemma_path_in_tree(tree, next, leaf);
        let rest = tree_path(tree, next, leaf)->0;
        assert forall|k: int| 0 <= k < path.len() implies (#[trigger] path[k]).0 * 2
            < tree.len() by {
            if k > 0 {
                assert(path[k] == rest[k - 1]);
            }
        }
    }
}

/// A reader that meets the booleans written for a leaf reads that leaf, and
/// stands behind them.
pub proof fn law_leaf_reads_back(
    d: DecState,
    tree: Seq<i8>,
    probs: Seq<u8>,
    i: int,
    leaf: int,
)
    requires
        tree_ok(tree),
        0 <= i < tree.len() - 1,
        i <= usize::MAX,
        tree_path(tree, i, leaf) is Some,
        range_coder::decodes(d, leaf_ops(tree, probs, i, leaf)),
    ensures
        read_tree_from(d, tree, probs, i) == (
            leaf,
            range_coder::dec_after(d, leaf_ops(tree, probs, i, leaf)),
        ),
    decreases tree.len() - i,
{
    let bit = branch_path(tree, i, false, leaf) is None;
    assert(tree_path(tree, i, leaf) == branch_path(tree, i, bit, leaf));
    let next = tree[i + bool_decoder::bit_value(bit)] as int;
    let first = range_coder::one_op(probs[i / 2], bit);
    let ops = leaf_ops(tree, probs, i, leaf);
    range_coder::lemma_decodes_one(d, probs[i / 2], bit);
    if next <= 0 {
        assert(ops =~= first);
    } else {
        let rest = leaf_ops(tree, probs, next, leaf);
        assert(ops =~= first + rest);
        range_coder::lemma_decodes_append(d, first, rest);
        law_leaf_reads_back(
            range_coder::dec_next(d, probs[i / 2]),
            tree,
            probs,
            next,
            leaf,
        );
    }
}

/// Puts the booleans that write `leaf` behind `out`.
pub fn push_leaf(
    out: &mut Vec<(u8, bool)>,
    tree: &[i8],
    probs: &[u8],
    start: usize,
    leaf: u8,
)
    requires
        tree_ok(tree@),
        2 * probs@.len() >= tree@.len(),
        start < tree@.len() - 1,
        tree_path(tree@, start as int, leaf as int) is Some,
    ensures
        final(out)@ == old(out)@ + leaf_ops(tree@, probs@, start as int, leaf as int),
{
    let ghost way = tree_path(tree@, start as int, leaf as int)->0;
    if let Some(path) = path_to_leaf(tree, start, leaf) {
        proof {
            lemma_path_in_tree(tree@, start as int, leaf as int);
        }
        let mut k: usize = 0;
        assert(out@ =~= old(out)@ + path_ops(way.take(0), probs@));
        while k < path.len()
            invariant
                k <= path@.len(),
                path@ == way,
                2 * probs@.len() >= tree@.len(),
                forall|j: int| 0 <= j < way.len() ==> (#[trigger] way[j]).0 * 2 < tree@.len(),
                out@ == old(out)@ + path_ops(way.take(k as int), probs@),
            decreases path@.len() - k,
        {
            let step: (usize, bool) = path[k];
            assert(way[k as int].0 * 2 < tree@.len());
            out.push((probs[step.0], step.1));
            assert(out@ =~= old(out)@ + path_ops(way.take(k + 1), probs@));
            k = k + 1;
        }
        assert(way.take(k as int) =~= way);
    }
}

} // verus!
