//! The Merkle accumulator: a fixed-depth binary hash tree over a sequence of
//! commitment leaves, with every leaf slot above the current count treated as
//! the all-zero leaf.
//!
//! `subtree_root` is the mathematical model: the digest of the subtree of
//! height `level` whose leftmost leaf is leaf number `index * 2^level`.
//! The root of the whole tree of depth `d` is `subtree_root(leaves, d, 0)`.
//!
//! A membership proof for the leaf at `index` is the ordered list of the
//! sibling digests along the path from that leaf to the root, in
//! leaf-to-root order. The position of the claimed node at level `l` is the
//! parity of `index / 2^l`: even means the node is the left operand when
//! hashed with its sibling, odd means it is the right operand. Proof
//! generation and verification both use this one convention.

use vstd::prelude::*;
use vstd::arithmetic::power2::{
    pow2,
    lemma_pow2_pos,
    lemma_pow2_adds,
    lemma_pow2_strictly_increases,
    lemma2_to64,
};
use vstd::arithmetic::mul::lemma_mul_inequality;
use vstd::arithmetic::div_mod::{lemma_div_denominator, lemma_basic_div};
use crate::hashing::node_hash;
use crate::hashing::hash_node;
use crate::bytesutil::bytes32_eq;

verus! {

/// The largest tree depth the pool supports; a tree of this depth already
/// holds more leaves than a 64-bit leaf counter could ever reach in practice.
pub const MAX_DEPTH: usize = 32;

/// The byte sequences of a sequence of 32-byte digests.
pub open spec fn leaves_view(s: Seq<[u8; 32]>) -> Seq<Seq<u8>> {
    s.map_values(|a: [u8; 32]| a@)
}

/// The digest occupying every leaf slot that has not been filled yet.
pub open spec fn zero_leaf() -> Seq<u8> {
    Seq::new(32, |i: int| 0u8)
}

/// The digest of the subtree of height `level` whose leaves are leaf numbers
/// `index * 2^level` up to `(index + 1) * 2^level`, where slots at or beyond
/// `leaves.len()` hold the all-zero leaf.
pub open spec fn subtree_root(leaves: Seq<Seq<u8>>, level: nat, index: nat) -> Seq<u8>
    decreases level,
{
    if level == 0 {
        if index < leaves.len() {
            leaves[index as int]
        } else {
            zero_leaf()
        }
    } else {
        node_hash(
            subtree_root(leaves, (level - 1) as nat, 2 * index),
            subtree_root(leaves, (level - 1) as nat, 2 * index + 1),
        )
    }
}

/// The root of the depth-`depth` tree holding the given leaves.
pub open spec fn root_spec(leaves: Seq<Seq<u8>>, depth: nat) -> Seq<u8> {
    subtree_root(leaves, depth, 0)
}

/// The digest of an entirely empty subtree of height `level`.
pub open spec fn zero_root(level: nat) -> Seq<u8>
    decreases level,
{
    if level == 0 {
        zero_leaf()
    } else {
        node_hash(zero_root((level - 1) as nat), zero_root((level - 1) as nat))
    }
}

/// The index of the sibling of the node at `index / 2^level` on the path of
/// leaf `index` at tree level `level`.
pub open spec fn sibling_index(index: nat, level: nat) -> nat {
    let i = index / pow2(level);
    if i % 2 == 0 {
        i + 1
    } else {
        (i - 1) as nat
    }
}

/// The root that a claimed leaf resolves to under a proof: fold the siblings
/// in leaf-to-root order, the parity of the running index deciding on which
/// side the running digest is hashed.
pub open spec fn path_root(leaf: Seq<u8>, siblings: Seq<Seq<u8>>, index: nat) -> Seq<u8>
    decreases siblings.len(),
{
    if siblings.len() == 0 {
        leaf
    } else {
        let next = if index % 2 == 0 {
            node_hash(leaf, siblings[0])
        } else {
            node_hash(siblings[0], leaf)
        };
        path_root(next, siblings.drop_first(), index / 2)
    }
}

/// What proof verification decides: the proof has exactly `depth` siblings
/// and folding them from the claimed leaf resolves to the root.
pub open spec fn verify_spec(
    root: Seq<u8>,
    leaf: Seq<u8>,
    siblings: Seq<Seq<u8>>,
    index: nat,
    depth: nat,
) -> bool {
    siblings.len() == depth && path_root(leaf, siblings, index) == root
}

/// A subtree that lies entirely beyond the filled leaves has the digest of an
/// empty subtree of its height.
pub proof fn lemma_zero_subtree(leaves: Seq<Seq<u8>>, level: nat, index: nat)
    requires
        index * pow2(level) >= leaves.len(),
    ensures
        subtree_root(leaves, level, index) == zero_root(level),
    decreases level,
{
    if level == 0 {
        assert(pow2(0) == 1) by {
            lemma2_to64();
        }
    } else {
        let l1 = (level - 1) as nat;
        assert(pow2(level) == 2 * pow2(l1)) by {
            lemma_pow2_adds(1, l1);
            lemma2_to64();
        }
        assert((2 * index) * pow2(l1) == index * pow2(level)) by (nonlinear_arith)
            requires
                pow2(level) == 2 * pow2(l1),
        ;
        assert((2 * index + 1) * pow2(l1) >= (2 * index) * pow2(l1)) by (nonlinear_arith);
        lemma_zero_subtree(leaves, l1, 2 * index);
        lemma_zero_subtree(leaves, l1, 2 * index + 1);
    }
}

/// Appending a leaf changes no subtree that does not contain the slot the
/// leaf lands in: a subtree entirely before or entirely after that slot
/// keeps its digest.
pub proof fn lemma_subtree_stable_push(leaves: Seq<Seq<u8>>, x: Seq<u8>, level: nat, index: nat)
    requires
        !(index * pow2(level) <= leaves.len() < (index + 1) * pow2(level)),
    ensures
        subtree_root(leaves.push(x), level, index) == subtree_root(leaves, level, index),
    decreases level,
{
    if level == 0 {
        assert(pow2(0) == 1) by {
            lemma2_to64();
        }
    } else {
        let l1 = (level - 1) as nat;
        assert(pow2(level) == 2 * pow2(l1)) by {
            lemma_pow2_adds(1, l1);
            lemma2_to64();
        }
        assert((2 * index) * pow2(l1) == index * pow2(level) && (2 * index + 2) * pow2(l1) == (
        index + 1) * pow2(level) && (2 * index + 1) * pow2(l1) == index * pow2(level) + pow2(
            l1,
        ) && (index + 1) * pow2(level) == index * pow2(level) + pow2(level)) by (nonlinear_arith)
            requires
                pow2(level) == 2 * pow2(l1),
        ;
        lemma_pow2_pos(l1);
        lemma_subtree_stable_push(leaves, x, l1, 2 * index);
        lemma_subtree_stable_push(leaves, x, l1, 2 * index + 1);
    }
}

/// 2 to the power `e`, as a machine integer.
pub fn pow2_u64(e: usize) -> (r: u64)
    requires
        e <= MAX_DEPTH,
    ensures
        r as nat == pow2(e as nat),
{
    proof {
        lemma2_to64();
    }
    let mut r: u64 = 1;
    let mut i: usize = 0;
    while i < e
        invariant
            i <= e,
            e <= MAX_DEPTH,
            r as nat == pow2(i as nat),
        decreases e - i,
    {
        proof {
            lemma2_to64();
            lemma_pow2_adds(1, i as nat);
            let i1: nat = (i + 1) as nat;
            if i1 < 32 {
                lemma_pow2_strictly_increases(i1, 32);
            }
        }
        r = r * 2;
        i = i + 1;
    }
    r
}

/// The digests of empty subtrees of every supported height, from a single
/// zero leaf at height 0 up to height `MAX_DEPTH`.
pub fn make_zeros() -> (r: Vec<[u8; 32]>)
    ensures
        r@.len() == MAX_DEPTH + 1,
        forall|l: int| 0 <= l <= MAX_DEPTH ==> r@[l]@ == zero_root(l as nat),
{
    let mut zeros: Vec<[u8; 32]> = Vec::new();
    let mut current: [u8; 32] = [0u8; 32];
    proof {
        assert(current@ =~= zero_leaf());
    }
    zeros.push(current);
    let mut l: usize = 1;
    while l <= MAX_DEPTH
        invariant
            1 <= l <= MAX_DEPTH + 1,
            zeros@.len() == l,
            forall|j: int| 0 <= j < l ==> zeros@[j]@ == zero_root(j as nat),
        decreases MAX_DEPTH + 1 - l,
    {
        let prev = zeros[l - 1];
        let next = hash_node(&prev, &prev);
        zeros.push(next);
        l = l + 1;
    }
    zeros
}

/// The digest of the subtree of height `level` at horizontal position
/// `index`, computed from the stored leaves; subtrees entirely beyond the
/// filled leaves are taken from the precomputed empty-subtree digests.
pub(crate) fn compute_subtree(
    leaves: &Vec<[u8; 32]>,
    zeros: &Vec<[u8; 32]>,
    level: usize,
    index: u64,
) -> (r: [u8; 32])
    requires
        level <= MAX_DEPTH,
        (index as nat) < pow2((64 - level) as nat),
        zeros@.len() == MAX_DEPTH + 1,
        forall|l: int| 0 <= l <= MAX_DEPTH ==> zeros@[l]@ == zero_root(l as nat),
    ensures
        r@ == subtree_root(leaves_view(leaves@), level as nat, index as nat),
    decreases level,
{
    let p = pow2_u64(level);
    proof {
        lemma_pow2_adds((64 - level) as nat, level as nat);
        lemma_pow2_pos(level as nat);
        lemma_pow2_pos((64 - level) as nat);
        lemma2_to64();
        lemma_mul_inequality(
            index as int,
            pow2((64 - level) as nat) - 1,
            pow2(level as nat) as int,
        );
        assert((pow2((64 - level) as nat) - 1) * pow2(level as nat) == pow2(
            (64 - level) as nat,
        ) * pow2(level as nat) - pow2(level as nat)) by (nonlinear_arith);
    }
    let start = index * p;
    if start >= leaves.len() as u64 {
        proof {
            lemma_zero_subtree(leaves_view(leaves@), level as nat, index as nat);
        }
        zeros[level]
    } else if level == 0 {
        proof {
            assert(index * p == index) by (nonlinear_arith)
                requires
                    p == 1,
            ;
        }
        leaves[index as usize]
    } else {
        proof {
            lemma_pow2_adds(1, (64 - level) as nat);
            lemma2_to64();
            vstd::arithmetic::power2::lemma2_to64_rest();
            if 64 - level < 63 {
                lemma_pow2_strictly_increases((64 - level) as nat, 63);
            }
        }
        let left = compute_subtree(leaves, zeros, level - 1, 2 * index);
        let right = compute_subtree(leaves, zeros, level - 1, 2 * index + 1);
        hash_node(&left, &right)
    }
}

/// Recompute, from scratch, the root of the depth-`depth` tree whose filled
/// leaves are exactly the given sequence.
pub fn compute_root(leaves: &Vec<[u8; 32]>, depth: usize) -> (r: [u8; 32])
    requires
        depth <= MAX_DEPTH,
    ensures
        r@ == root_spec(leaves_view(leaves@), depth as nat),
{
    proof {
        lemma_pow2_pos((64 - depth) as nat);
    }
    let zeros = make_zeros();
    compute_subtree(leaves, &zeros, depth, 0)
}

/// Check a claimed membership path against a root. The proof must hold
/// exactly `depth` siblings: a proof of any other length is rejected before
/// any hashing is done.
pub fn verify_merkle_proof(
    root: &[u8; 32],
    leaf: &[u8; 32],
    siblings: &Vec<[u8; 32]>,
    leaf_index: u64,
    depth: usize,
) -> (r: bool)
    ensures
        r == verify_spec(root@, leaf@, leaves_view(siblings@), leaf_index as nat, depth as nat),
{
    if siblings.len() != depth {
        return false;
    }
    let ghost all = leaves_view(siblings@);
    proof {
        assert(all.skip(0) =~= all);
    }
    let mut current: [u8; 32] = *leaf;
    let mut idx: u64 = leaf_index;
    let mut l: usize = 0;
    while l < depth
        invariant
            l <= depth,
            siblings@.len() == depth,
            all == leaves_view(siblings@),
            path_root(current@, all.skip(l as int), idx as nat) == path_root(
                leaf@,
                all,
                leaf_index as nat,
            ),
        decreases depth - l,
    {
        let sib = siblings[l];
        proof {
            assert(all.skip(l as int)[0] == all[l as int]);
            assert(all.skip(l as int).drop_first() =~= all.skip(l + 1 as int));
        }
        if idx % 2 == 0 {
            current = hash_node(&current, &sib);
        } else {
            current = hash_node(&sib, &current);
        }
        idx = idx / 2;
        l = l + 1;
    }
    proof {
        assert(all.skip(depth as int) =~= Seq::<Seq<u8>>::empty());
    }
    bytes32_eq(&current, root)
}

/// Climbing the path from a node to an ancestor: folding the true sibling
/// digests of the levels in between takes the digest of the node at height
/// `base` and position `idx` to the digest of the ancestor `sibs.len()`
/// levels higher.
proof fn lemma_climb(leaves: Seq<Seq<u8>>, base: nat, idx: nat, sibs: Seq<Seq<u8>>)
    requires
        forall|j: int|
            0 <= j < sibs.len() ==> sibs[j] == subtree_root(
                leaves,
                (base + j) as nat,
                sibling_index(idx, j as nat),
            ),
    ensures
        path_root(subtree_root(leaves, base, idx), sibs, idx) == subtree_root(
            leaves,
            (base + sibs.len()) as nat,
            idx / pow2(sibs.len()),
        ),
    decreases sibs.len(),
{
    lemma2_to64();
    if sibs.len() == 0 {
        assert(idx / pow2(0) == idx);
    } else {
        let cur = subtree_root(leaves, base, idx);
        let next_idx = idx / 2;
        assert(sibs[0] == subtree_root(leaves, base, sibling_index(idx, 0)));
        assert(idx / pow2(0) == idx);
        let next = if idx % 2 == 0 {
            node_hash(cur, sibs[0])
        } else {
            node_hash(sibs[0], cur)
        };
        if idx % 2 == 0 {
            assert(2 * next_idx == idx);
            assert(next == subtree_root(leaves, base + 1, next_idx));
        } else {
            assert(2 * next_idx + 1 == idx);
            assert(sibling_index(idx, 0) == 2 * next_idx);
            assert(next == subtree_root(leaves, base + 1, next_idx));
        }
        let rest = sibs.drop_first();
        assert forall|j: int| 0 <= j < rest.len() implies rest[j] == subtree_root(
            leaves,
            ((base + 1) + j) as nat,
            sibling_index(next_idx, j as nat),
        ) by {
            assert(sibs[j + 1] == subtree_root(
                leaves,
                (base + j + 1) as nat,
                sibling_index(idx, (j + 1) as nat),
            ));
            lemma_pow2_adds(1, j as nat);
            lemma_pow2_pos(j as nat);
            lemma_div_denominator(idx as int, 2, pow2(j as nat) as int);
            assert(next_idx / pow2(j as nat) == idx / pow2((j + 1) as nat));
        }
        lemma_climb(leaves, base + 1, next_idx, rest);
        lemma_pow2_adds(1, (sibs.len() - 1) as nat);
        lemma_pow2_pos((sibs.len() - 1) as nat);
        lemma_div_denominator(idx as int, 2, pow2((sibs.len() - 1) as nat) as int);
        lemma_pow2_pos(sibs.len() as nat);
        assert(next_idx / pow2((sibs.len() - 1) as nat) == idx / pow2(sibs.len()));
        assert(path_root(cur, sibs, idx) == path_root(next, rest, next_idx));
    }
}

/// Completeness: for every filled leaf, the proof made of the true sibling
/// digests along its path resolves to the root of the tree, so verification
/// of a generated proof always succeeds.
pub proof fn lemma_proof_completeness(
    leaves: Seq<Seq<u8>>,
    depth: nat,
    index: nat,
    siblings: Seq<Seq<u8>>,
)
    requires
        index < leaves.len(),
        leaves.len() <= pow2(depth),
        siblings.len() == depth,
        forall|l: int|
            0 <= l < depth ==> siblings[l] == subtree_root(
                leaves,
                l as nat,
                sibling_index(index, l as nat),
            ),
    ensures
        verify_spec(root_spec(leaves, depth), leaves[index as int], siblings, index, depth),
{
    lemma2_to64();
    assert(subtree_root(leaves, 0, index) == leaves[index as int]);
    lemma_climb(leaves, 0, index, siblings);
    lemma_pow2_pos(depth);
    lemma_basic_div(index as int, pow2(depth) as int);
    assert(index / pow2(depth) == 0);
}

/// A proof whose length differs from the tree depth never verifies, whatever
/// its content.
pub proof fn lemma_wrong_length_proof_rejected(
    root: Seq<u8>,
    leaf: Seq<u8>,
    siblings: Seq<Seq<u8>>,
    index: nat,
    depth: nat,
)
    requires
        siblings.len() != depth,
    ensures
        !verify_spec(root, leaf, siblings, index, depth),
{
}

/// Root equivalence: the root maintained incrementally across insertions and
/// the root recomputed from scratch over the same leaf sequence agree,
/// because both are pinned to `root_spec` of that sequence.
pub proof fn lemma_root_equivalence(
    incremental: Seq<u8>,
    recomputed: Seq<u8>,
    leaves: Seq<Seq<u8>>,
    depth: nat,
)
    requires
        incremental == root_spec(leaves, depth),
        recomputed == root_spec(leaves, depth),
    ensures
        incremental == recomputed,
{
}

} // verus!
