//! Trusted wrappers over the rustreexo accumulator. The accumulator is
//! specified only at its interface: a commitment `(leaves, roots)` plus
//! a stateless proof check and a batch update. A root is carried as a
//! byte vector, 32 bytes for a present node and empty for a deleted one.
//!
//! Both calls are pure functions of their arguments, so each result is
//! given a name that the chain-state contracts speak of.

use vstd::prelude::*;
use rustreexo::node_hash::BitcoinNodeHash;
use rustreexo::proof::Proof as StumpProof;
use rustreexo::stump::Stump;

verus! {

/// The number of rows of the forest a commitment of `n` leaves spans:
/// zero for at most one leaf, and one more whenever the leaf count
/// halves, rounding up.
pub open spec fn forest_rows_of(n: u64) -> nat
    decreases n,
{
    if n <= 1 {
        0
    } else {
        1 + forest_rows_of(((n + 1) / 2) as u64)
    }
}

/// A forest of at most `pow2(k)` leaves spans at most `k` rows.
pub proof fn lemma_forest_rows_bound(n: u64, k: nat)
    requires
        n <= vstd::arithmetic::power2::pow2(k),
    ensures
        forest_rows_of(n) <= k,
    decreases n,
{
    if n > 1 {
        assert(k >= 1) by {
            if k == 0 {
                assert(vstd::arithmetic::power2::pow2(0) == 1) by {
                    vstd::arithmetic::power2::lemma_pow2(0);
                    vstd::arithmetic::power::lemma_pow0(2);
                }
            }
        }
        assert(vstd::arithmetic::power2::pow2(k) == 2 * vstd::arithmetic::power2::pow2(
            (k - 1) as nat,
        )) by {
            vstd::arithmetic::power2::lemma_pow2_unfold(k);
        }
        lemma_forest_rows_bound(((n + 1) / 2) as u64, (k - 1) as nat);
    }
}

/// The number of one bits of a leaf count: the number of perfect trees
/// the forest splits into, and so the number of roots a well-formed
/// commitment carries.
pub open spec fn popcount(n: u64) -> nat
    decreases n,
{
    if n == 0 {
        0
    } else {
        (n % 2) as nat + popcount(n / 2)
    }
}

/// Counts the one bits of a leaf count.
pub fn count_ones(n: u64) -> (r: u64)
    ensures
        r == popcount(n),
        r <= 64,
{
    proof {
        lemma_popcount_bound(n, 64);
    }
    let mut m = n;
    let mut c: u64 = 0;
    while m > 0
        invariant
            popcount(n) == c + popcount(m),
            c <= popcount(n),
            popcount(n) <= 64,
        decreases m,
    {
        c = c + (m % 2);
        m = m / 2;
    }
    c
}

/// A count of at most `pow2(k)` leaves has at most `k` one bits... or
/// one more at the power itself; 64 bounds every u64.
proof fn lemma_popcount_bound(n: u64, k: nat)
    requires
        n < vstd::arithmetic::power2::pow2(k) || k >= 64,
    ensures
        popcount(n) <= k,
    decreases n,
{
    if n > 0 {
        assert(k >= 1) by {
            if k == 0 {
                assert(vstd::arithmetic::power2::pow2(0) == 1) by {
                    vstd::arithmetic::power2::lemma_pow2(0);
                    vstd::arithmetic::power::lemma_pow0(2);
                }
            }
        }
        if k < 64 {
            assert(vstd::arithmetic::power2::pow2(k) == 2 * vstd::arithmetic::power2::pow2(
                (k - 1) as nat,
            )) by {
                vstd::arithmetic::power2::lemma_pow2_unfold(k);
            }
        } else if k == 64 {
            assert(n / 2 < 0x8000_0000_0000_0000);
            assert(vstd::arithmetic::power2::pow2(63) == 0x8000_0000_0000_0000) by {
                vstd::arithmetic::power2::lemma2_to64_rest();
            }
        }
        lemma_popcount_bound(n / 2, (k - 1) as nat);
    }
}

/// Whether an accumulator position names a node inside a forest of `n`
/// leaves. Positions address the fully grown 63-row forest: the count
/// of leading one bits is the node's row, so a position whose row
/// exceeds the forest's rows names nothing, and rustreexo's position
/// translation does not return on it. A position's row is at most `r`
/// exactly when the position is below `2^64 - 2^(63 - r)`.
pub open spec fn target_in_forest(t: u64, n: u64) -> bool
    recommends
        forest_rows_of(n) <= 63,
{
    t <= u64::MAX - (vstd::arithmetic::power2::pow2((63 - forest_rows_of(n)) as nat) as u64)
}

/// Computes the rows of a forest of `n` leaves.
pub fn forest_rows(n: u64) -> (r: u8)
    requires
        n <= 0x8000_0000_0000_0000,
    ensures
        r == forest_rows_of(n),
        r <= 63,
{
    proof {
        assert(vstd::arithmetic::power2::pow2(63) == 0x8000_0000_0000_0000) by {
            vstd::arithmetic::power2::lemma2_to64_rest();
        }
        lemma_forest_rows_bound(n, 63);
    }
    let mut m = n;
    let mut r: u8 = 0;
    while m > 1
        invariant
            m <= 0x8000_0000_0000_0000,
            forest_rows_of(n) == r + forest_rows_of(m),
            r <= forest_rows_of(n),
            forest_rows_of(n) <= 63,
        decreases m,
    {
        m = (m + 1) / 2;
        r = r + 1;
    }
    r
}

/// Whether every proof target names a node of the forest.
pub fn targets_in_forest(targets: &Vec<u64>, leaves: u64) -> (r: bool)
    requires
        leaves <= 0x8000_0000_0000_0000,
    ensures
        r == forall|i: int| 0 <= i < targets@.len() ==> target_in_forest(
            #[trigger] targets@[i],
            leaves,
        ),
{
    let rows = forest_rows(leaves);
    let sh: u32 = (63 - rows) as u32;
    let bound: u64 = u64::MAX - (1u64 << sh);
    proof {
        assert((1u64 << sh) as int == vstd::arithmetic::power2::pow2(sh as nat)) by {
            vstd::bits::lemma_u64_pow2_no_overflow(sh as nat);
            vstd::bits::lemma_u64_shl_is_mul(1u64, sh as u64);
        }
    }
    let mut i: usize = 0;
    while i < targets.len()
        invariant
            i <= targets@.len(),
            bound == u64::MAX - (vstd::arithmetic::power2::pow2(
                (63 - forest_rows_of(leaves)) as nat,
            ) as u64),
            forall|k: int| 0 <= k < i ==> target_in_forest(#[trigger] targets@[k], leaves),
        decreases targets@.len() - i,
    {
        if targets[i] > bound {
            return false;
        }
        i = i + 1;
    }
    true
}

/// Whether rustreexo's proof verification accepts: `Stump::verify`
/// returns `Ok(true)` for this commitment, proof and deletion set.
pub uninterp spec fn acc_verifies(
    leaves: u64,
    roots: Seq<Seq<u8>>,
    targets: Seq<u64>,
    proof_hashes: Seq<Seq<u8>>,
    del_hashes: Seq<Seq<u8>>,
) -> bool;

/// The roots after rustreexo's `Stump::modify` applies the deletions
/// and additions, or `None` when the call fails.
pub uninterp spec fn acc_update_of(
    leaves: u64,
    roots: Seq<Seq<u8>>,
    additions: Seq<Seq<u8>>,
    del_hashes: Seq<Seq<u8>>,
    targets: Seq<u64>,
    proof_hashes: Seq<Seq<u8>>,
) -> Option<Seq<Seq<u8>>>;

/// Relies on rustreexo's Stump::verify: recomputes the roots implied by
/// the proof and compares them with the commitment. True exactly when
/// the call returns `Ok(true)`. The `requires` keeps every target's row
/// within the forest, which is what the crate's position translation
/// needs to return rather than panic.
#[verifier::external_body]
pub(crate) fn stump_verify(
    leaves: u64,
    roots: &Vec<Vec<u8>>,
    targets: &Vec<u64>,
    proof_hashes: &Vec<Vec<u8>>,
    del_hashes: &Vec<Vec<u8>>,
) -> (r: bool)
    requires
        leaves <= 0x2000_0000_0000_0000,
        forall|i: int| 0 <= i < targets@.len() ==> target_in_forest(
            #[trigger] targets@[i],
            leaves,
        ),
    ensures
        r == acc_verifies(
            leaves,
            roots.deep_view(),
            targets@,
            proof_hashes.deep_view(),
            del_hashes.deep_view(),
        ),
{
    let conv = |v: &Vec<Vec<u8>>| -> Vec<BitcoinNodeHash> {
        v.iter().map(|b| if b.len() == 32 {
            let mut a = [0u8; 32]; a.copy_from_slice(b); BitcoinNodeHash::Some(a)
        } else { BitcoinNodeHash::Empty }).collect()
    };
    let stump = Stump { leaves, roots: conv(roots) };
    let proof = StumpProof::new(targets.clone(), conv(proof_hashes));
    match stump.verify(&proof, &conv(del_hashes)) {
        Ok(b) => b,
        Err(_) => false,
    }
}

/// Relies on rustreexo's Stump::modify: the new commitment after the
/// proved deletions and the additions are applied. On success the leaf
/// count grows by exactly the number of additions, and the commitment
/// keeps its shape of one root per one-bit of the leaf count (both from
/// the method's source; the shape is the crate's own `num_roots`,
/// maintained by its add step). The `requires` keep every target's row
/// within the forest and the incoming roots in that same shape, which
/// is what the crate's position translation and its root bookkeeping
/// need to return rather than panic.
#[verifier::external_body]
pub(crate) fn stump_modify(
    leaves: u64,
    roots: &Vec<Vec<u8>>,
    additions: &Vec<Vec<u8>>,
    del_hashes: &Vec<Vec<u8>>,
    targets: &Vec<u64>,
    proof_hashes: &Vec<Vec<u8>>,
) -> (r: Option<(u64, Vec<Vec<u8>>)>)
    requires
        leaves <= 0x2000_0000_0000_0000,
        leaves + additions@.len() <= u64::MAX,
        roots.deep_view().len() == popcount(leaves),
        forall|i: int| 0 <= i < targets@.len() ==> target_in_forest(
            #[trigger] targets@[i],
            leaves,
        ),
    ensures
        r matches Some(p) ==> p.1.deep_view().len() == popcount(p.0),
        r is Some <==> acc_update_of(
            leaves,
            roots.deep_view(),
            additions.deep_view(),
            del_hashes.deep_view(),
            targets@,
            proof_hashes.deep_view(),
        ) is Some,
        r matches Some(p) ==> p.0 == leaves + additions@.len() && Some(p.1.deep_view())
            == acc_update_of(
            leaves,
            roots.deep_view(),
            additions.deep_view(),
            del_hashes.deep_view(),
            targets@,
            proof_hashes.deep_view(),
        ),
{
    let conv = |v: &Vec<Vec<u8>>| -> Vec<BitcoinNodeHash> {
        v.iter().map(|b| if b.len() == 32 {
            let mut a = [0u8; 32]; a.copy_from_slice(b); BitcoinNodeHash::Some(a)
        } else { BitcoinNodeHash::Empty }).collect()
    };
    let stump = Stump { leaves, roots: conv(roots) };
    let proof = StumpProof::new(targets.clone(), conv(proof_hashes));
    let upd = stump.modify(&conv(additions), &conv(del_hashes), &proof).ok()?;
    Some((upd.0.leaves, upd.0.roots.iter().map(|h| match h {
        BitcoinNodeHash::Some(a) => a.to_vec(), _ => Vec::new() }).collect()))
}

} // verus!
