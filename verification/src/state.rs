//! The pool state: the Merkle accumulator's leaves, the spent-nullifier set,
//! and the fixed-layout persisted record combining them.
//!
//! Persisted record layout, fixed once the pool is initialized:
//!
//! | offset | size            | field                                    |
//! |--------|-----------------|------------------------------------------|
//! | 0      | 32              | Merkle root                              |
//! | 32     | 8               | leaf count, little-endian                |
//! | 40     | 1               | tree depth                               |
//! | 41     | 8               | spent-nullifier count, little-endian     |
//! | 49     | 8               | nullifier capacity, little-endian        |
//! | 57     | capacity * 32   | nullifier entries, then zero padding     |
//!
//! The commitment leaves themselves are not part of the record: an off-path
//! collaborator (an append-only log visible to clients) holds the full leaf
//! sequence, and loading a record checks the supplied leaf sequence against
//! the persisted root and count before any operation proceeds.

use vstd::prelude::*;
use vstd::arithmetic::power2::{pow2, lemma_pow2_pos, lemma_pow2_adds, lemma_pow2_strictly_increases, lemma2_to64};
use vstd::arithmetic::div_mod::{
    lemma_div_denominator,
    lemma_fundamental_div_mod,
    lemma_fundamental_div_mod_converse,
    lemma_mod_bound,
};
use vstd::bytes::{spec_u64_to_le_bytes, spec_u64_from_le_bytes, u64_to_le_bytes, u64_from_le_bytes};
use vstd::slice::slice_subrange;
use crate::PoolError;
use crate::hashing::commitment_hash;
use crate::hashing::hash_commitment;
use crate::merkle::{
    MAX_DEPTH,
    leaves_view,
    subtree_root,
    root_spec,
    sibling_index,
    verify_spec,
    zero_root,
    compute_subtree,
    make_zeros,
    pow2_u64,
    verify_merkle_proof,
    lemma_zero_subtree,
    lemma_subtree_stable_push,
};
use crate::hashing::hash_node;
use crate::bytesutil::{push_bytes, write_bytes, read_bytes32, bytes32_eq};

verus! {

/// The mathematical model of a pool state: the filled leaves in insertion
/// order, the spent nullifiers in the order they were revealed, the tree
/// depth and the nullifier capacity. The root is not part of the model: it
/// is the derived value `root_spec(commitments, depth)`.
#[verifier::ext_equal]
pub ghost struct StateModel {
    pub depth: nat,
    pub commitments: Seq<Seq<u8>>,
    pub nullifiers: Seq<Seq<u8>>,
    pub nullifier_capacity: nat,
}

/// The model after appending one commitment leaf.
pub open spec fn with_commitment(m: StateModel, c: Seq<u8>) -> StateModel {
    StateModel {
        depth: m.depth,
        commitments: m.commitments.push(c),
        nullifiers: m.nullifiers,
        nullifier_capacity: m.nullifier_capacity,
    }
}

/// The model after marking one nullifier as spent.
pub open spec fn with_nullifier(m: StateModel, n: Seq<u8>) -> StateModel {
    StateModel {
        depth: m.depth,
        commitments: m.commitments,
        nullifiers: m.nullifiers.push(n),
        nullifier_capacity: m.nullifier_capacity,
    }
}

/// The incremental-update cache of the accumulator: for each level `l`, when
/// the node the next insertion passes through at level `l` is a right child,
/// `filled[l]` holds the digest of its completed left sibling.
spec fn filled_entry_ok(lv: Seq<Seq<u8>>, filled: Seq<[u8; 32]>, count: nat, l: int) -> bool {
    (count / pow2(l as nat)) % 2 == 1 ==> filled[l]@ == subtree_root(
        lv,
        l as nat,
        (count / pow2(l as nat) - 1) as nat,
    )
}

/// The fixed-depth incremental Merkle accumulator: the filled leaves, the
/// maintained root, and the cache of completed left subtrees that lets an
/// insertion recompute only the path from the new leaf to the root — one
/// hash per level.
#[derive(Debug)]
struct Accumulator {
    depth: usize,
    leaves: Vec<[u8; 32]>,
    root: [u8; 32],
    filled: Vec<[u8; 32]>,
}

impl Accumulator {
    /// Well-formedness: the root is the root of the filled leaves, and the
    /// cache holds the digest of every completed left sibling on the next
    /// insertion's path.
    spec fn wf(self) -> bool {
        &&& self.depth <= MAX_DEPTH
        &&& self.leaves@.len() <= pow2(self.depth as nat)
        &&& self.filled@.len() == self.depth
        &&& self.root@ == root_spec(leaves_view(self.leaves@), self.depth as nat)
        &&& forall|l: int|
            0 <= l < self.depth ==> #[trigger] filled_entry_ok(
                leaves_view(self.leaves@),
                self.filled@,
                self.leaves@.len(),
                l,
            )
    }

    /// A depth-zero accumulator holding nothing: its root is the zero leaf.
    fn empty() -> (r: Accumulator)
        ensures
            r.wf(),
    {
        let r = Accumulator { depth: 0, leaves: Vec::new(), root: [0u8; 32], filled: Vec::new() };
        proof {
            assert(r.root@ =~= crate::merkle::zero_leaf());
            assert(leaves_view(r.leaves@) =~= Seq::<Seq<u8>>::empty());
            lemma2_to64();
        }
        r
    }

    /// Rebuild an accumulator from a full leaf sequence: recompute the root
    /// and every cache entry from scratch.
    fn from_leaves(depth: usize, leaves: Vec<[u8; 32]>) -> (r: Accumulator)
        requires
            depth <= MAX_DEPTH,
            leaves@.len() <= pow2(depth as nat),
        ensures
            r.wf(),
            r.depth == depth,
            r.leaves@ == leaves@,
    {
        let zeros = make_zeros();
        proof {
            lemma_pow2_pos((64 - depth) as nat);
            lemma2_to64();
        }
        let root = compute_subtree(&leaves, &zeros, depth, 0);
        let count = leaves.len() as u64;
        let mut filled: Vec<[u8; 32]> = Vec::new();
        let mut q: u64 = count;
        let mut l: usize = 0;
        while l < depth
            invariant
                l <= depth,
                depth <= MAX_DEPTH,
                count == leaves@.len(),
                count <= pow2(depth as nat),
                zeros@.len() == MAX_DEPTH + 1,
                forall|j: int| 0 <= j <= MAX_DEPTH ==> zeros@[j]@ == zero_root(j as nat),
                q as nat == (count as nat) / pow2(l as nat),
                q <= count,
                filled@.len() == l,
                forall|j: int|
                    0 <= j < l ==> #[trigger] filled_entry_ok(
                        leaves_view(leaves@),
                        filled@,
                        count as nat,
                        j,
                    ),
            decreases depth - l,
        {
            proof {
                lemma2_to64();
                if (depth as nat) < 32 {
                    lemma_pow2_strictly_increases(depth as nat, 32);
                }
                if 32 < 64 - l {
                    lemma_pow2_strictly_increases(32, (64 - l) as nat);
                }
            }
            let ghost prev = filled@;
            if q % 2 == 1 {
                let node = compute_subtree(&leaves, &zeros, l, q - 1);
                filled.push(node);
            } else {
                filled.push(zeros[l]);
            }
            proof {
                assert forall|j: int| 0 <= j < l + 1 implies #[trigger] filled_entry_ok(
                    leaves_view(leaves@),
                    filled@,
                    count as nat,
                    j,
                ) by {
                    if j < l {
                        assert(filled@[j] == prev[j]);
                        assert(filled_entry_ok(leaves_view(leaves@), prev, count as nat, j));
                    }
                }
                lemma_pow2_adds(l as nat, 1);
                lemma_pow2_pos(l as nat);
                lemma_div_denominator(count as int, pow2(l as nat) as int, 2);
            }
            q = q / 2;
            l = l + 1;
        }
        Accumulator { depth, leaves, root, filled }
    }

    /// Append a leaf at the next free index, recomputing exactly the nodes
    /// on the path from the new leaf to the root — `depth` hash operations —
    /// and updating the cache. Fails with `PoolFull`, mutating nothing,
    /// exactly when the tree is full.
    fn insert(&mut self, leaf: [u8; 32]) -> (r: Result<u64, PoolError>)
        requires
            old(self).wf(),
        ensures
            final(self).wf(),
            final(self).depth == old(self).depth,
            old(self).leaves@.len() < pow2(old(self).depth as nat) ==> {
                &&& r == Ok::<u64, PoolError>(old(self).leaves@.len() as u64)
                &&& final(self).leaves@ == old(self).leaves@.push(leaf)
            },
            old(self).leaves@.len() >= pow2(old(self).depth as nat) ==> {
                &&& r == Err::<u64, PoolError>(PoolError::PoolFull)
                &&& *final(self) == *old(self)
            },
    {
        let depth = self.depth;
        let cap = pow2_u64(depth);
        if self.leaves.len() as u64 == cap {
            return Err(PoolError::PoolFull);
        }
        let ghost old_lv = leaves_view(self.leaves@);
        let n = self.leaves.len();
        self.leaves.push(leaf);
        let ghost nl = leaves_view(self.leaves@);
        proof {
            assert(nl =~= old_lv.push(leaf@));
            lemma2_to64();
        }
        let zeros = make_zeros();
        let mut current: [u8; 32] = leaf;
        let mut idx: u64 = n as u64;
        let mut level: usize = 0;
        while level < depth
            invariant
                level <= depth,
                depth == self.depth,
                depth <= MAX_DEPTH,
                self.leaves@.len() == n + 1,
                self.leaves@ == old(self).leaves@.push(leaf),
                n < pow2(depth as nat),
                nl == leaves_view(self.leaves@),
                nl == old_lv.push(leaf@),
                old_lv.len() == n,
                self.filled@.len() == depth,
                zeros@.len() == MAX_DEPTH + 1,
                forall|j: int| 0 <= j <= MAX_DEPTH ==> zeros@[j]@ == zero_root(j as nat),
                idx as nat == (n as nat) / pow2(level as nat),
                idx <= n,
                current@ == subtree_root(nl, level as nat, idx as nat),
                forall|l: int|
                    0 <= l < level ==> #[trigger] filled_entry_ok(
                        nl,
                        self.filled@,
                        (n + 1) as nat,
                        l,
                    ),
                forall|l: int|
                    level <= l < depth ==> #[trigger] filled_entry_ok(
                        old_lv,
                        self.filled@,
                        n as nat,
                        l,
                    ),
            decreases depth - level,
        {
            let ghost lvl = level as nat;
            let ghost p = pow2(lvl);
            proof {
                lemma2_to64();
                lemma_pow2_pos(lvl);
                lemma_fundamental_div_mod(n as int, p as int);
                lemma_mod_bound(n as int, p as int);
                assert((idx as int + 1) * (p as int) == (idx as int) * (p as int) + (
                p as int)) by (nonlinear_arith);
                assert((idx as int) * (p as int) == (p as int) * (idx as int)) by (nonlinear_arith);
            }
            let ghost prev_filled = self.filled@;
            if idx % 2 == 0 {
                self.filled[level] = current;
                proof {
                    // the right sibling lies entirely beyond the new leaf
                    assert((idx as nat + 1) * p >= n + 1);
                    lemma_zero_subtree(nl, lvl, (idx + 1) as nat);
                }
                let z = zeros[level];
                current = hash_node(&current, &z);
            } else {
                proof {
                    // the cache holds the completed left sibling, whose
                    // digest the new leaf cannot have changed
                    assert(filled_entry_ok(old_lv, self.filled@, n as nat, level as int));
                    assert((n as nat) / p == idx as nat && (idx as nat) % 2 == 1);
                    assert((idx as int - 1) * (p as int) + (p as int) == (idx as int) * (
                    p as int)) by (nonlinear_arith);
                    assert(!((idx as nat - 1) * p <= old_lv.len() < (idx as nat) * p));
                    lemma_subtree_stable_push(old_lv, leaf@, lvl, (idx - 1) as nat);
                }
                let f = self.filled[level];
                current = hash_node(&f, &current);
            }
            proof {
                // the new digest is the parent node on the path
                assert(2 * ((idx as nat) / 2) == if idx as nat % 2 == 0 {
                    idx as nat
                } else {
                    (idx - 1) as nat
                });
                assert(current@ == subtree_root(nl, lvl + 1, (idx as nat) / 2));
                // the cache condition at this level now holds for the new count
                let q1 = ((n + 1) as nat) / p;
                if (n as nat) % p == p - 1 {
                    lemma_fundamental_div_mod_converse(
                        (n + 1) as int,
                        p as int,
                        idx as int + 1,
                        0,
                    );
                    assert(q1 == idx as nat + 1);
                } else {
                    lemma_fundamental_div_mod_converse(
                        (n + 1) as int,
                        p as int,
                        idx as int,
                        (n as int) % (p as int) + 1,
                    );
                    assert(q1 == idx as nat);
                }
                assert(filled_entry_ok(nl, self.filled@, (n + 1) as nat, level as int));
                // entries below are untouched, entries above keep the old facts
                assert forall|l: int| 0 <= l < level implies #[trigger] filled_entry_ok(
                    nl,
                    self.filled@,
                    (n + 1) as nat,
                    l,
                ) by {
                    assert(self.filled@[l] == prev_filled[l]);
                    assert(filled_entry_ok(nl, prev_filled, (n + 1) as nat, l));
                }
                assert forall|l: int| level + 1 <= l < depth implies #[trigger] filled_entry_ok(
                    old_lv,
                    self.filled@,
                    n as nat,
                    l,
                ) by {
                    assert(self.filled@[l] == prev_filled[l]);
                    assert(filled_entry_ok(old_lv, prev_filled, n as nat, l));
                }
                lemma_pow2_adds(lvl, 1);
                lemma_div_denominator(n as int, p as int, 2);
            }
            idx = idx / 2;
            level = level + 1;
        }
        proof {
            lemma_pow2_pos(depth as nat);
            vstd::arithmetic::div_mod::lemma_basic_div(n as int, pow2(depth as nat) as int);
        }
        self.root = current;
        Ok(n as u64)
    }
}

/// A pool instance: a fixed-depth incremental Merkle accumulator of
/// commitments together with the append-only set of spent nullifiers.
#[derive(Debug)]
pub struct MixerState {
    acc: Accumulator,
    nullifiers: Vec<[u8; 32]>,
    nullifier_capacity: usize,
}

impl View for MixerState {
    type V = StateModel;

    closed spec fn view(&self) -> StateModel {
        StateModel {
            depth: self.acc.depth as nat,
            commitments: leaves_view(self.acc.leaves@),
            nullifiers: leaves_view(self.nullifiers@),
            nullifier_capacity: self.nullifier_capacity as nat,
        }
    }
}

impl MixerState {
    /// Bounds every reachable pool state satisfies: the depth is supported,
    /// the tree is never over-filled, and the nullifier set never exceeds
    /// its configured capacity.
    #[verifier::type_invariant]
    spec fn inv(self) -> bool {
        &&& self.acc.wf()
        &&& self.nullifiers@.len() <= self.nullifier_capacity
    }

    /// Initialize an empty pool: no leaves, no spent nullifiers.
    pub fn new(depth: usize, nullifier_capacity: usize) -> (s: MixerState)
        requires
            depth <= MAX_DEPTH,
        ensures
            s@.depth == depth,
            s@.commitments == Seq::<Seq<u8>>::empty(),
            s@.nullifiers == Seq::<Seq<u8>>::empty(),
            s@.nullifier_capacity == nullifier_capacity,
    {
        proof {
            lemma_pow2_pos(depth as nat);
        }
        let acc = Accumulator::from_leaves(depth, Vec::new());
        let s = MixerState { acc, nullifiers: Vec::new(), nullifier_capacity };
        proof {
            assert(leaves_view(s.acc.leaves@) =~= Seq::<Seq<u8>>::empty());
            assert(leaves_view(s.nullifiers@) =~= Seq::<Seq<u8>>::empty());
        }
        s
    }

    /// The current Merkle root: the root of the depth-`depth` tree whose
    /// filled leaves are exactly the commitments inserted so far.
    pub fn current_root(&self) -> (r: [u8; 32])
        ensures
            r@ == root_spec(self@.commitments, self@.depth),
    {
        proof {
            use_type_invariant(&*self);
        }
        self.acc.root
    }

    /// Append a commitment leaf at the next free index and return that
    /// index. Fails with `PoolFull`, mutating nothing, exactly when the tree
    /// already holds `2^depth` leaves.
    pub fn add_commitment(&mut self, commitment: [u8; 32]) -> (r: Result<u64, PoolError>)
        ensures
            old(self)@.commitments.len() < pow2(old(self)@.depth) ==> {
                &&& r == Ok::<u64, PoolError>(old(self)@.commitments.len() as u64)
                &&& final(self)@ == with_commitment(old(self)@, commitment@)
            },
            old(self)@.commitments.len() >= pow2(old(self)@.depth) ==> {
                &&& r == Err::<u64, PoolError>(PoolError::PoolFull)
                &&& final(self)@ == old(self)@
            },
    {
        proof {
            use_type_invariant(&*self);
        }
        let mut acc = Accumulator::empty();
        std::mem::swap(&mut acc, &mut self.acc);
        let result = acc.insert(commitment);
        std::mem::swap(&mut acc, &mut self.acc);
        proof {
            if old(self)@.commitments.len() < pow2(old(self)@.depth) {
                assert(leaves_view(self.acc.leaves@) =~= old(self)@.commitments.push(
                    commitment@,
                ));
                assert(final(self)@ =~= with_commitment(old(self)@, commitment@));
            } else {
                assert(final(self)@ =~= old(self)@);
            }
        }
        result
    }

    /// Whether a nullifier has already been revealed and spent.
    pub fn is_nullifier_spent(&self, nullifier: &[u8; 32]) -> (r: bool)
        ensures
            r == self@.nullifiers.contains(nullifier@),
    {
        let n = self.nullifiers.len();
        let mut i: usize = 0;
        while i < n
            invariant
                i <= n,
                n == self.nullifiers@.len(),
                forall|j: int| 0 <= j < i ==> leaves_view(self.nullifiers@)[j] != nullifier@,
            decreases n - i,
        {
            if bytes32_eq(&self.nullifiers[i], nullifier) {
                proof {
                    assert(self@.nullifiers[i as int] == nullifier@);
                }
                return true;
            }
            i = i + 1;
        }
        false
    }

    /// Record a nullifier as spent. Fails with `AlreadySpent`, mutating
    /// nothing, exactly when the nullifier is already recorded; fails with
    /// `StorageTooSmall`, mutating nothing, when the set is at its fixed
    /// capacity; otherwise appends the entry permanently.
    pub fn mark_nullifier_spent(&mut self, nullifier: &[u8; 32]) -> (r: Result<(), PoolError>)
        ensures
            old(self)@.nullifiers.contains(nullifier@) ==> {
                &&& r == Err::<(), PoolError>(PoolError::AlreadySpent)
                &&& final(self)@ == old(self)@
            },
            !old(self)@.nullifiers.contains(nullifier@) && old(self)@.nullifiers.len()
                >= old(self)@.nullifier_capacity ==> {
                &&& r == Err::<(), PoolError>(PoolError::StorageTooSmall)
                &&& final(self)@ == old(self)@
            },
            !old(self)@.nullifiers.contains(nullifier@) && old(self)@.nullifiers.len() < old(
                self,
            )@.nullifier_capacity ==> {
                &&& r == Ok::<(), PoolError>(())
                &&& final(self)@ == with_nullifier(old(self)@, nullifier@)
            },
    {
        proof {
            use_type_invariant(&*self);
        }
        if self.is_nullifier_spent(nullifier) {
            return Err(PoolError::AlreadySpent);
        }
        if self.nullifiers.len() == self.nullifier_capacity {
            return Err(PoolError::StorageTooSmall);
        }
        let entry: [u8; 32] = *nullifier;
        let mut taken: Vec<[u8; 32]> = Vec::new();
        std::mem::swap(&mut taken, &mut self.nullifiers);
        taken.push(entry);
        std::mem::swap(&mut taken, &mut self.nullifiers);
        proof {
            assert(leaves_view(self.nullifiers@) =~= old(self)@.nullifiers.push(nullifier@));
            assert(final(self)@ =~= with_nullifier(old(self)@, nullifier@));
        }
        Ok(())
    }

    /// Reconstruct the authentication path for the leaf at `leaf_index`: the
    /// sibling digests along the path from that leaf to the root, in
    /// leaf-to-root order. Fails with `InvalidInstructionData` exactly when
    /// the index does not name a filled leaf.
    pub fn generate_proof(&self, leaf_index: u64) -> (r: Result<Vec<[u8; 32]>, PoolError>)
        ensures
            (leaf_index as nat) < self@.commitments.len() ==> {
                &&& r is Ok
                &&& leaves_view(r->Ok_0@) == Seq::new(
                    self@.depth,
                    |l: int|
                        subtree_root(
                            self@.commitments,
                            l as nat,
                            sibling_index(leaf_index as nat, l as nat),
                        ),
                )
            },
            (leaf_index as nat) >= self@.commitments.len() ==> r == Err::<
                Vec<[u8; 32]>,
                PoolError,
            >(PoolError::InvalidInstructionData),
    {
        proof {
            use_type_invariant(&*self);
        }
        if leaf_index >= self.acc.leaves.len() as u64 {
            return Err(PoolError::InvalidInstructionData);
        }
        let depth = self.acc.depth;
        let zeros = make_zeros();
        let mut out: Vec<[u8; 32]> = Vec::new();
        let mut idx: u64 = leaf_index;
        let mut l: usize = 0;
        proof {
            lemma2_to64();
        }
        while l < depth
            invariant
                l <= depth,
                depth == self@.depth,
                depth <= MAX_DEPTH,
                (leaf_index as nat) < self@.commitments.len(),
                self@.commitments.len() <= pow2(depth as nat),
                self@.commitments == leaves_view(self.acc.leaves@),
                zeros@.len() == MAX_DEPTH + 1,
                forall|j: int| 0 <= j <= MAX_DEPTH ==> zeros@[j]@ == zero_root(j as nat),
                idx as nat == (leaf_index as nat) / pow2(l as nat),
                idx <= leaf_index,
                out@.len() == l,
                forall|j: int|
                    0 <= j < l ==> out@[j]@ == subtree_root(
                        self@.commitments,
                        j as nat,
                        sibling_index(leaf_index as nat, j as nat),
                    ),
            decreases depth - l,
        {
            proof {
                lemma2_to64();
                lemma_pow2_pos(l as nat);
                if (depth as nat) < 32 {
                    lemma_pow2_strictly_increases(depth as nat, 32);
                }
                if 32 < 64 - l {
                    lemma_pow2_strictly_increases(32, (64 - l) as nat);
                }
            }
            let sib: u64 = if idx % 2 == 0 {
                idx + 1
            } else {
                idx - 1
            };
            proof {
                assert(sib as nat == sibling_index(leaf_index as nat, l as nat));
            }
            let node = compute_subtree(&self.acc.leaves, &zeros, l, sib);
            out.push(node);
            proof {
                lemma_pow2_adds(l as nat, 1);
                lemma_pow2_pos(l as nat);
                lemma_div_denominator(leaf_index as int, pow2(l as nat) as int, 2);
            }
            idx = idx / 2;
            l = l + 1;
        }
        proof {
            assert(leaves_view(out@) =~= Seq::new(
                self@.depth,
                |j: int|
                    subtree_root(
                        self@.commitments,
                        j as nat,
                        sibling_index(leaf_index as nat, j as nat),
                    ),
            ));
        }
        Ok(out)
    }

    /// The deposit operation: bind `amount` and `secret` into a commitment
    /// and insert it at the next free leaf index, returning that index.
    /// Fails with `PoolFull`, mutating nothing, exactly when the tree is
    /// full. The host triggers the external value transfer before this
    /// mutation and unwinds it if this fails, so no partial state survives.
    pub fn process_deposit(&mut self, amount: u64, secret: &[u8]) -> (r: Result<u64, PoolError>)
        ensures
            old(self)@.commitments.len() < pow2(old(self)@.depth) ==> {
                &&& r == Ok::<u64, PoolError>(old(self)@.commitments.len() as u64)
                &&& final(self)@ == with_commitment(
                    old(self)@,
                    commitment_hash(amount, secret@),
                )
            },
            old(self)@.commitments.len() >= pow2(old(self)@.depth) ==> {
                &&& r == Err::<u64, PoolError>(PoolError::PoolFull)
                &&& final(self)@ == old(self)@
            },
    {
        let commitment = hash_commitment(amount, secret);
        self.add_commitment(commitment)
    }

    /// The withdraw operation, strictly in order: reject an already-spent
    /// nullifier with `AlreadySpent`; reject a proof that does not resolve
    /// the claimed leaf to the current root (or has the wrong length) with
    /// `ProofInvalid`; then mark the nullifier as spent. Nothing is mutated
    /// on any failure, so a failed attempt leaves the pool exactly as it
    /// was. The external value transfer happens only after this succeeds.
    pub fn process_withdraw(
        &mut self,
        nullifier: &[u8; 32],
        leaf: &[u8; 32],
        leaf_index: u64,
        siblings: &Vec<[u8; 32]>,
    ) -> (r: Result<(), PoolError>)
        ensures
            old(self)@.nullifiers.contains(nullifier@) ==> {
                &&& r == Err::<(), PoolError>(PoolError::AlreadySpent)
                &&& final(self)@ == old(self)@
            },
            !old(self)@.nullifiers.contains(nullifier@) && !verify_spec(
                root_spec(old(self)@.commitments, old(self)@.depth),
                leaf@,
                leaves_view(siblings@),
                leaf_index as nat,
                old(self)@.depth,
            ) ==> {
                &&& r == Err::<(), PoolError>(PoolError::ProofInvalid)
                &&& final(self)@ == old(self)@
            },
            !old(self)@.nullifiers.contains(nullifier@) && verify_spec(
                root_spec(old(self)@.commitments, old(self)@.depth),
                leaf@,
                leaves_view(siblings@),
                leaf_index as nat,
                old(self)@.depth,
            ) && old(self)@.nullifiers.len() >= old(self)@.nullifier_capacity ==> {
                &&& r == Err::<(), PoolError>(PoolError::StorageTooSmall)
                &&& final(self)@ == old(self)@
            },
            !old(self)@.nullifiers.contains(nullifier@) && verify_spec(
                root_spec(old(self)@.commitments, old(self)@.depth),
                leaf@,
                leaves_view(siblings@),
                leaf_index as nat,
                old(self)@.depth,
            ) && old(self)@.nullifiers.len() < old(self)@.nullifier_capacity ==> {
                &&& r == Ok::<(), PoolError>(())
                &&& final(self)@ == with_nullifier(old(self)@, nullifier@)
            },
    {
        if self.is_nullifier_spent(nullifier) {
            return Err(PoolError::AlreadySpent);
        }
        let root = self.current_root();
        let depth = self.tree_depth();
        if !verify_merkle_proof(&root, leaf, siblings, leaf_index, depth) {
            return Err(PoolError::ProofInvalid);
        }
        self.mark_nullifier_spent(nullifier)
    }

    /// The number of leaves inserted so far; the next insertion uses this as
    /// its index.
    pub fn leaf_count(&self) -> (r: u64)
        ensures
            r as nat == self@.commitments.len(),
    {
        proof {
            use_type_invariant(&*self);
            lemma2_to64();
            if (self.acc.depth as nat) < 32 {
                lemma_pow2_strictly_increases(self.acc.depth as nat, 32);
            }
        }
        self.acc.leaves.len() as u64
    }

    /// The fixed depth of the accumulator tree.
    pub fn tree_depth(&self) -> (r: usize)
        ensures
            r as nat == self@.depth,
            r <= MAX_DEPTH,
    {
        proof {
            use_type_invariant(&*self);
        }
        self.acc.depth
    }

    /// The fixed number of nullifier entries the persisted record can hold.
    pub fn nullifier_capacity(&self) -> (r: usize)
        ensures
            r as nat == self@.nullifier_capacity,
    {
        self.nullifier_capacity
    }

    /// The number of nullifiers spent so far.
    pub fn nullifier_count(&self) -> (r: usize)
        ensures
            r as nat == self@.nullifiers.len(),
    {
        self.nullifiers.len()
    }
}

/// The root field of a persisted record.
pub open spec fn stored_root(data: Seq<u8>) -> Seq<u8> {
    data.subrange(0, 32)
}

/// The leaf-count field of a persisted record.
pub open spec fn stored_leaf_count(data: Seq<u8>) -> u64 {
    spec_u64_from_le_bytes(data.subrange(32, 40))
}

/// The tree-depth field of a persisted record.
pub open spec fn stored_depth(data: Seq<u8>) -> nat {
    data[40] as nat
}

/// The spent-nullifier-count field of a persisted record.
pub open spec fn stored_nullifier_count(data: Seq<u8>) -> u64 {
    spec_u64_from_le_bytes(data.subrange(41, 49))
}

/// The nullifier-capacity field of a persisted record.
pub open spec fn stored_capacity(data: Seq<u8>) -> u64 {
    spec_u64_from_le_bytes(data.subrange(49, 57))
}

/// The spent-nullifier entries of a persisted record, in order.
pub open spec fn stored_nullifiers(data: Seq<u8>) -> Seq<Seq<u8>> {
    Seq::new(
        stored_nullifier_count(data) as nat,
        |i: int| data.subrange(57 + 32 * i, 89 + 32 * i),
    )
}

/// What it means for a byte buffer to hold the persisted record of the pool
/// state modelled by `m`.
pub open spec fn encodes(data: Seq<u8>, m: StateModel) -> bool {
    &&& data.len() >= 57 + 32 * m.nullifier_capacity
    &&& stored_root(data) == root_spec(m.commitments, m.depth)
    &&& stored_leaf_count(data) == m.commitments.len() as u64
    &&& stored_depth(data) == m.depth
    &&& stored_nullifier_count(data) == m.nullifiers.len() as u64
    &&& stored_capacity(data) == m.nullifier_capacity as u64
    &&& forall|i: int|
        0 <= i < m.nullifiers.len() ==> data.subrange(57 + 32 * i, 89 + 32 * i)
            == m.nullifiers[i]
}

/// A buffer is a well-formed record for a given leaf sequence when it is
/// large enough for its own declared capacity, its declared sizes are
/// consistent, and its root is the root of exactly that leaf sequence.
pub open spec fn buffer_well_formed(data: Seq<u8>, commitments: Seq<Seq<u8>>) -> bool {
    &&& data.len() >= 57
    &&& stored_depth(data) <= MAX_DEPTH
    &&& stored_nullifier_count(data) <= stored_capacity(data)
    &&& data.len() >= 57 + 32 * (stored_capacity(data) as nat)
    &&& stored_leaf_count(data) as nat == commitments.len()
    &&& commitments.len() <= pow2(stored_depth(data))
    &&& stored_root(data) == root_spec(commitments, stored_depth(data))
}

impl MixerState {
    /// Encode the pool state into the leading bytes of `data`, leaving any
    /// bytes past the record untouched. Fails with `StorageTooSmall`,
    /// writing nothing, exactly when the buffer cannot hold the record.
    pub fn serialize(&self, data: &mut Vec<u8>) -> (r: Result<(), PoolError>)
        ensures
            old(data)@.len() < 57 + 32 * self@.nullifier_capacity ==> {
                &&& r == Err::<(), PoolError>(PoolError::StorageTooSmall)
                &&& final(data)@ == old(data)@
            },
            old(data)@.len() >= 57 + 32 * self@.nullifier_capacity ==> {
                &&& r == Ok::<(), PoolError>(())
                &&& final(data)@.len() == old(data)@.len()
                &&& encodes(final(data)@, self@)
                &&& final(data)@.skip((57 + 32 * self@.nullifier_capacity) as int) == old(
                    data,
                )@.skip((57 + 32 * self@.nullifier_capacity) as int)
            },
    {
        proof {
            use_type_invariant(&*self);
        }
        let root = self.current_root();
        let mut enc: Vec<u8> = Vec::new();
        push_bytes(&mut enc, root.as_slice());
        let mut count_bytes = u64_to_le_bytes(self.acc.leaves.len() as u64);
        enc.append(&mut count_bytes);
        enc.push(self.acc.depth as u8);
        let mut ncount_bytes = u64_to_le_bytes(self.nullifiers.len() as u64);
        enc.append(&mut ncount_bytes);
        let mut cap_bytes = u64_to_le_bytes(self.nullifier_capacity as u64);
        enc.append(&mut cap_bytes);
        let ghost header = enc@;
        proof {
            assert(header.len() == 57);
            assert(header.subrange(0, 32) =~= root@);
            assert(header.subrange(32, 40) =~= spec_u64_to_le_bytes(
                self@.commitments.len() as u64,
            ));
            assert(header[40] == self@.depth as u8);
            assert(header.subrange(41, 49) =~= spec_u64_to_le_bytes(
                self@.nullifiers.len() as u64,
            ));
            assert(header.subrange(49, 57) =~= spec_u64_to_le_bytes(
                self@.nullifier_capacity as u64,
            ));
        }
        let ncount = self.nullifiers.len();
        let mut i: usize = 0;
        while i < ncount
            invariant
                i <= ncount,
                ncount == self.nullifiers@.len(),
                enc@.len() == 57 + 32 * i,
                enc@.subrange(0, 57) == header,
                forall|k: int|
                    0 <= k < i ==> enc@.subrange(57 + 32 * k, 89 + 32 * k) == leaves_view(
                        self.nullifiers@,
                    )[k],
            decreases ncount - i,
        {
            let ghost prev = enc@;
            let entry = self.nullifiers[i];
            push_bytes(&mut enc, entry.as_slice());
            proof {
                assert(enc@.subrange(0, 57) =~= prev.subrange(0, 57));
                assert forall|k: int| 0 <= k < i + 1 implies enc@.subrange(
                    57 + 32 * k,
                    89 + 32 * k,
                ) == leaves_view(self.nullifiers@)[k] by {
                    if k < i {
                        assert(enc@.subrange(57 + 32 * k, 89 + 32 * k) =~= prev.subrange(
                            57 + 32 * k,
                            89 + 32 * k,
                        ));
                    } else {
                        assert(enc@.subrange(57 + 32 * k, 89 + 32 * k) =~= entry@);
                    }
                }
            }
            i = i + 1;
        }
        let ghost filled = enc@;
        let cap = self.nullifier_capacity;
        let zero_entry: [u8; 32] = [0u8; 32];
        let mut j: usize = ncount;
        while j < cap
            invariant
                ncount <= j <= cap,
                enc@.len() == 57 + 32 * j,
                filled.len() == 57 + 32 * ncount,
                enc@.subrange(0, (57 + 32 * ncount) as int) == filled,
            decreases cap - j,
        {
            let ghost prev = enc@;
            push_bytes(&mut enc, zero_entry.as_slice());
            proof {
                assert(enc@.subrange(0, (57 + 32 * ncount) as int) =~= prev.subrange(
                    0,
                    (57 + 32 * ncount) as int,
                ));
            }
            j = j + 1;
        }
        if data.len() < enc.len() {
            return Err(PoolError::StorageTooSmall);
        }
        let ghost orig = data@;
        write_bytes(data, 0, enc.as_slice());
        proof {
            vstd::bytes::lemma_auto_spec_u64_to_from_le_bytes();
            let m = self@;
            let n = enc@.len() as int;
            assert(data@.subrange(0, n) =~= enc@);
            assert(data@.skip(n) =~= orig.skip(n));
            assert(data@.subrange(0, 57) =~= enc@.subrange(0, (57 + 32 * ncount) as int)
                .subrange(0, 57));
            assert(enc@.subrange(0, (57 + 32 * ncount) as int).subrange(0, 57) =~= header);
            assert(data@.subrange(0, 32) =~= header.subrange(0, 32));
            assert(data@.subrange(32, 40) =~= header.subrange(32, 40));
            assert(data@.subrange(41, 49) =~= header.subrange(41, 49));
            assert(data@.subrange(49, 57) =~= header.subrange(49, 57));
            assert(data@[40] == header[40]);
            assert forall|k: int| 0 <= k < m.nullifiers.len() implies data@.subrange(
                57 + 32 * k,
                89 + 32 * k,
            ) == m.nullifiers[k] by {
                assert(filled.subrange(57 + 32 * k, 89 + 32 * k) == leaves_view(
                    self.nullifiers@,
                )[k]);
                assert(data@.subrange(57 + 32 * k, 89 + 32 * k) =~= filled.subrange(
                    57 + 32 * k,
                    89 + 32 * k,
                ));
            }
        }
        Ok(())
    }

    /// Decode a pool state from a persisted record and the off-path leaf
    /// sequence, after validating that the buffer is large enough, its
    /// declared sizes are consistent, and its root matches the root
    /// recomputed over the supplied leaves. Fails with `InvalidAccountData`,
    /// exactly on a buffer that is not a well-formed record for those
    /// leaves.
    pub fn deserialize(data: &[u8], commitments: Vec<[u8; 32]>) -> (r: Result<
        MixerState,
        PoolError,
    >)
        ensures
            buffer_well_formed(data@, leaves_view(commitments@)) ==> {
                &&& r is Ok
                &&& r->Ok_0@.depth == stored_depth(data@)
                &&& r->Ok_0@.commitments == leaves_view(commitments@)
                &&& r->Ok_0@.nullifiers == stored_nullifiers(data@)
                &&& r->Ok_0@.nullifier_capacity == stored_capacity(data@) as nat
            },
            !buffer_well_formed(data@, leaves_view(commitments@)) ==> r == Err::<
                MixerState,
                PoolError,
            >(PoolError::InvalidAccountData),
    {
        if data.len() < 57 {
            return Err(PoolError::InvalidAccountData);
        }
        let depth_byte = data[40];
        if depth_byte as usize > MAX_DEPTH {
            return Err(PoolError::InvalidAccountData);
        }
        let depth = depth_byte as usize;
        let ncount = u64_from_le_bytes(slice_subrange(data, 41, 49));
        let cap = u64_from_le_bytes(slice_subrange(data, 49, 57));
        if ncount > cap {
            return Err(PoolError::InvalidAccountData);
        }
        if (data.len() as u128) < 57 + 32 * (cap as u128) {
            return Err(PoolError::InvalidAccountData);
        }
        let count = u64_from_le_bytes(slice_subrange(data, 32, 40));
        if count != commitments.len() as u64 {
            return Err(PoolError::InvalidAccountData);
        }
        let tree_cap = pow2_u64(depth);
        if count > tree_cap {
            return Err(PoolError::InvalidAccountData);
        }
        let acc = Accumulator::from_leaves(depth, commitments);
        let actual_root = read_bytes32(data, 0);
        if !bytes32_eq(&acc.root, &actual_root) {
            return Err(PoolError::InvalidAccountData);
        }
        let ncount_us = ncount as usize;
        let cap_us = cap as usize;
        let dlen = data.len();
        let mut entries: Vec<[u8; 32]> = Vec::new();
        let mut i: usize = 0;
        while i < ncount_us
            invariant
                i <= ncount_us,
                ncount_us == stored_nullifier_count(data@),
                dlen == data@.len(),
                dlen >= 57 + 32 * (ncount_us as nat),
                entries@.len() == i,
                forall|k: int|
                    0 <= k < i ==> entries@[k]@ == data@.subrange(57 + 32 * k, 89 + 32 * k),
            decreases ncount_us - i,
        {
            let entry = read_bytes32(data, 57 + 32 * i);
            entries.push(entry);
            i = i + 1;
        }
        let s = MixerState { acc, nullifiers: entries, nullifier_capacity: cap_us };
        proof {
            assert(leaves_view(s.nullifiers@) =~= stored_nullifiers(data@));
        }
        Ok(s)
    }
}

/// Store round trip: a buffer into which a valid pool state was encoded is a
/// well-formed record for that state's leaves, and decodes to exactly the
/// state that was written — so `deserialize` after `serialize` restores the
/// pool, by those functions' contracts.
pub proof fn lemma_store_roundtrip(data: Seq<u8>, m: StateModel)
    requires
        encodes(data, m),
        m.depth <= MAX_DEPTH,
        m.commitments.len() <= pow2(m.depth),
        m.nullifiers.len() <= m.nullifier_capacity,
        m.nullifier_capacity < pow2(64),
    ensures
        buffer_well_formed(data, m.commitments),
        stored_depth(data) == m.depth,
        stored_nullifiers(data) == m.nullifiers,
        stored_capacity(data) as nat == m.nullifier_capacity,
{
    lemma2_to64();
    if m.depth < 32 {
        lemma_pow2_strictly_increases(m.depth, 32);
    }
    assert(stored_nullifiers(data) =~= m.nullifiers);
}

/// Double-spend prevention over the nullifier-set model: after a successful
/// mark of a nullifier the set contains it, so `is_nullifier_spent` returns
/// true and a second `mark_nullifier_spent` fails with `AlreadySpent` by
/// those functions' contracts; and marking never removes an earlier entry.
pub proof fn lemma_double_spend_prevented(nullifiers: Seq<Seq<u8>>, n: Seq<u8>, m: Seq<u8>)
    ensures
        nullifiers.push(n).contains(n),
        nullifiers.contains(m) ==> nullifiers.push(n).contains(m),
{
    assert(nullifiers.push(n)[nullifiers.len() as int] == n);
    if nullifiers.contains(m) {
        let i = choose|i: int| 0 <= i < nullifiers.len() && nullifiers[i] == m;
        assert(nullifiers.push(n)[i] == m);
    }
}

} // verus!
