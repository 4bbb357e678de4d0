//! The minimal chain state: best tip, header journal, block index and
//! the accumulator commitment. A header is accepted when it links to the
//! tip and meets the target its own bits field encodes; a block is
//! connected when the accumulator proof verifies, and the update is
//! all-or-nothing.

use vstd::prelude::*;
use vstd::arithmetic::power::pow;
use crate::types::{Block, BlockV, Header, HeaderV, OutPoint, OutPointV, Proof, ProofV, Transaction, TxV, AcceptError};
use crate::bytesutil::{le_to_int, lemma_le_to_int_bound, bytes_eq, clone_bytes, push_u64_le, push_bytes, u64_le};
use crate::codec::{block_hash_of, compute_block_hash, leaf_hash_of, compute_leaf_hash};
use crate::digest::{target_of_bits, signet_max_target};
use crate::store::{WasmStore, BestChain};
use crate::accumulator::{acc_verifies, acc_update_of, stump_verify, stump_modify, popcount, target_in_forest, targets_in_forest};
use crate::procproof::{txs_view, outpoint_eq, PrevOutMap};

verus! {

/// A header meets the basic proof-of-work check: the target its bits
/// field encodes is nonzero, no easier than signet's maximum attainable
/// target, and the block hash, read as a 256-bit little-endian integer,
/// does not exceed it.
pub open spec fn pow_valid(h: HeaderV) -> bool {
    let t = target_of_bits(h.bits);
    t != 0 && t <= signet_max_target() && le_to_int(block_hash_of(h)) <= t
}

/// A decoded compact target `mant * 256^k` stays within signet's
/// maximum attainable target exactly on these mantissa bounds per
/// exponent.
proof fn lemma_target_cap(mant: u32, k: u32)
    requires
        0 < mant <= 0x7FFFFF,
    ensures
        (mant * pow(256, k as nat) <= signet_max_target()) == (k <= 26 || (k == 27 && mant
            <= 0x0377AE) || (k == 28 && mant <= 0x377) || (k == 29 && mant <= 3)),
{
    let p26 = pow(256, 26);
    let p27 = pow(256, 27);
    let pk = pow(256, k as nat);
    vstd::arithmetic::power::lemma_pow_positive(256, 26);
    vstd::arithmetic::power::lemma_pow_positive(256, 27);
    vstd::arithmetic::power::lemma_pow_positive(256, k as nat);
    assert(p27 == 256 * p26) by {
        vstd::arithmetic::power::lemma_pow_adds(256, 1nat, 26);
        vstd::arithmetic::power::lemma_pow1(256);
    }
    lemma_pow2_bytes(26);
    assert(signet_max_target() == 0x0377ae00 * p26);
    assert(0x0377ae00 * p26 == 0x0377AE * p27) by (nonlinear_arith)
        requires
            p27 == 256 * p26,
    ;
    if k <= 26 {
        assert(pk <= p26) by {
            vstd::arithmetic::power::lemma_pow_increases(256, k as nat, 26);
        }
        assert(mant * pk <= 0x7FFFFF * p26) by (nonlinear_arith)
            requires
                0 < mant <= 0x7FFFFF,
                0 < pk <= p26,
        ;
        assert(0x7FFFFF * p26 < 0x0377ae00 * p26) by (nonlinear_arith)
            requires
                p26 > 0,
        ;
    } else if k == 27 {
        if mant <= 0x0377AE {
            assert(mant * pk <= 0x0377AE * p27) by (nonlinear_arith)
                requires
                    pk == p27,
                    mant <= 0x0377AE,
                    p27 > 0,
            ;
        } else {
            assert(mant * pk > 0x0377AE * p27) by (nonlinear_arith)
                requires
                    pk == p27,
                    mant > 0x0377AE,
                    p27 > 0,
            ;
        }
    } else if k == 28 {
        assert(pk == 256 * p27) by {
            vstd::arithmetic::power::lemma_pow_adds(256, 1nat, 27);
            vstd::arithmetic::power::lemma_pow1(256);
        }
        if mant <= 0x377 {
            assert(mant * pk <= 0x0377AE * p27) by (nonlinear_arith)
                requires
                    pk == 256 * p27,
                    mant <= 0x377,
                    p27 > 0,
            ;
        } else {
            assert(mant * pk > 0x0377AE * p27) by (nonlinear_arith)
                requires
                    pk == 256 * p27,
                    mant >= 0x378,
                    p27 > 0,
            ;
        }
    } else if k == 29 {
        assert(pk == 0x10000 * p27) by {
            vstd::arithmetic::power::lemma_pow_adds(256, 2nat, 27);
            assert(pow(256, 2) == 0x10000) by {
                reveal_with_fuel(vstd::arithmetic::power::pow, 3);
            }
        }
        if mant <= 3 {
            assert(mant * pk <= 0x0377AE * p27) by (nonlinear_arith)
                requires
                    pk == 0x10000 * p27,
                    mant <= 3,
                    p27 > 0,
            ;
        } else {
            assert(mant * pk > 0x0377AE * p27) by (nonlinear_arith)
                requires
                    pk == 0x10000 * p27,
                    mant >= 4,
                    p27 > 0,
            ;
        }
    } else {
        assert(pk >= pow(256, 30)) by {
            vstd::arithmetic::power::lemma_pow_increases(256, 30, k as nat);
        }
        assert(pow(256, 30) == 0x1000000 * p27) by {
            vstd::arithmetic::power::lemma_pow_adds(256, 3nat, 27);
            assert(pow(256, 3) == 0x1000000) by {
                reveal_with_fuel(vstd::arithmetic::power::pow, 4);
            }
        }
        assert(mant * pk > 0x0377AE * p27) by (nonlinear_arith)
            requires
                mant >= 1,
                pk >= 0x1000000 * p27,
                p27 > 0,
        ;
    }
}

/// Splitting a little-endian byte string at `n` splits its value.
proof fn lemma_le_split(s: Seq<u8>, n: int)
    requires
        0 <= n <= s.len(),
    ensures
        le_to_int(s) == le_to_int(s.take(n)) + pow(256, n as nat) * le_to_int(s.skip(n)),
    decreases n,
{
    if n == 0 {
        assert(s.take(0) =~= Seq::<u8>::empty());
        assert(s.skip(0) =~= s);
        assert(pow(256, 0) == 1) by {
            vstd::arithmetic::power::lemma_pow0(256);
        }
    } else {
        lemma_le_split(s.drop_first(), n - 1);
        assert(s.take(n).drop_first() =~= s.drop_first().take(n - 1));
        assert(s.skip(n) =~= s.drop_first().skip(n - 1));
        let p1 = pow(256, (n - 1) as nat);
        assert(pow(256, n as nat) == 256 * p1) by {
            vstd::arithmetic::power::lemma_pow_adds(256, 1nat, (n - 1) as nat);
            vstd::arithmetic::power::lemma_pow1(256);
        }
        let a = le_to_int(s.drop_first().take(n - 1));
        let b = le_to_int(s.drop_first().skip(n - 1));
        assert(le_to_int(s.drop_first()) == a + p1 * b);
        assert(le_to_int(s) == s[0] + 256 * (a + p1 * b));
        assert(le_to_int(s.take(n)) == s[0] + 256 * a);
        assert(256 * (a + p1 * b) == 256 * a + 256 * (p1 * b)) by (nonlinear_arith);
        assert(256 * (p1 * b) == (256 * p1) * b) by (nonlinear_arith);
    }
}

/// A little-endian byte string stands for zero exactly when every byte
/// is zero.
proof fn lemma_le_zero(s: Seq<u8>)
    ensures
        le_to_int(s) == 0 <==> (forall|i: int| 0 <= i < s.len() ==> s[i] == 0),
    decreases s.len(),
{
    if s.len() > 0 {
        lemma_le_zero(s.drop_first());
        lemma_le_to_int_bound(s.drop_first());
        if le_to_int(s) == 0 {
            assert forall|i: int| 0 <= i < s.len() implies s[i] == 0 by {
                if i > 0 {
                    assert(s.drop_first()[i - 1] == s[i]);
                }
            }
        }
        if forall|i: int| 0 <= i < s.len() ==> s[i] == 0 {
            assert forall|i: int| 0 <= i < s.drop_first().len() implies s.drop_first()[i] == 0 by {
                assert(s.drop_first()[i] == s[i + 1]);
            }
        }
    }
}

/// The value of a string of at most three little-endian bytes.
proof fn lemma_le_up_to_3(s: Seq<u8>)
    requires
        s.len() <= 3,
    ensures
        le_to_int(s) == (if s.len() > 0 {
            s[0] as int
        } else {
            0
        }) + 256 * (if s.len() > 1 {
            s[1] as int
        } else {
            0
        }) + 65536 * (if s.len() > 2 {
            s[2] as int
        } else {
            0
        }),
{
    if s.len() == 0 {
    } else if s.len() == 1 {
        assert(s.drop_first() =~= Seq::<u8>::empty());
        assert(le_to_int(s) == s[0] + 256 * le_to_int(s.drop_first()));
    } else if s.len() == 2 {
        let t = s.drop_first();
        assert(t[0] == s[1]);
        assert(t.drop_first() =~= Seq::<u8>::empty());
        assert(le_to_int(t) == t[0] + 256 * le_to_int(t.drop_first()));
        assert(le_to_int(s) == s[0] + 256 * le_to_int(t));
    } else {
        let t = s.drop_first();
        let u = t.drop_first();
        assert(t[0] == s[1] && u[0] == s[2]);
        assert(u.drop_first() =~= Seq::<u8>::empty());
        assert(le_to_int(u) == u[0] + 256 * le_to_int(u.drop_first()));
        assert(le_to_int(t) == t[0] + 256 * le_to_int(u));
        assert(le_to_int(s) == s[0] + 256 * le_to_int(t));
    }
}

/// Whether a 32-byte little-endian hash is at most `mant * 256^k`, the
/// decoded compact target.
fn hash_le_target(hash: &Vec<u8>, mant: u32, k: u32) -> (r: bool)
    requires
        hash@.len() == 32,
        0 < mant <= 0x7FFFFF,
    ensures
        r == (le_to_int(hash@) <= mant * pow(256, k as nat)),
{
    proof {
        lemma_le_to_int_bound(hash@);
    }
    if k >= 32 {
        proof {
            assert(pow(256, k as nat) >= pow(256, 32)) by {
                vstd::arithmetic::power::lemma_pow_increases(256, 32, k as nat);
            }
            assert(mant * pow(256, k as nat) >= 1 * pow(256, 32)) by (nonlinear_arith)
                requires
                    mant >= 1,
                    pow(256, k as nat) >= pow(256, 32),
                    pow(256, 32) > 0,
            ;
        }
        return true;
    }
    let kk = k as usize;
    proof {
        lemma_le_split(hash@, kk as int);
        lemma_le_to_int_bound(hash@.take(kk as int));
    }
    let ghost low = le_to_int(hash@.take(kk as int));
    let ghost hi = le_to_int(hash@.skip(kk as int));
    let ghost p = pow(256, k as nat);
    proof {
        vstd::arithmetic::power::lemma_pow_positive(256, k as nat);
    }
    // the part of the hash above the three mantissa bytes must be zero
    let mut i: usize = if kk + 3 <= 32 {
        kk + 3
    } else {
        32
    };
    let ghost top_start = i;
    let mut top_zero = true;
    while i < 32
        invariant
            top_start <= i <= 32,
            hash@.len() == 32,
            top_zero <==> (forall|j: int| top_start <= j < i ==> hash@[j] == 0),
        decreases 32 - i,
    {
        if hash[i] != 0 {
            top_zero = false;
        }
        i = i + 1;
    }
    // the three mantissa bytes of the hash
    let b0 = hash[kk] as u32;
    let b1 = if kk + 1 < 32 {
        hash[kk + 1] as u32
    } else {
        0
    };
    let b2 = if kk + 2 < 32 {
        hash[kk + 2] as u32
    } else {
        0
    };
    let hi24: u32 = b0 + 256 * b1 + 65536 * b2;
    proof {
        // hi == hi24 + 256^3 * (value of the bytes above), and the top
        // bytes are zero exactly when top_zero
        let sk = hash@.skip(kk as int);
        let cut: int = if kk + 3 <= 32 {
            3
        } else {
            32 - kk
        };
        lemma_le_split(sk, cut);
        lemma_le_zero(sk.skip(cut));
        assert forall|j: int| 0 <= j < sk.skip(cut).len() implies sk.skip(cut)[j] == hash@[top_start
            + j] by {
            assert(sk.skip(cut)[j] == hash@[kk + cut + j]);
        }
        if top_zero {
            assert(forall|j: int| 0 <= j < sk.skip(cut).len() ==> sk.skip(cut)[j] == 0);
            assert(le_to_int(sk.skip(cut)) == 0);
            assert(le_to_int(sk.take(cut)) == hi24) by {
                lemma_le_up_to_3(sk.take(cut));
                assert(sk.take(cut)[0] == hash@[kk as int]);
                if cut > 1 {
                    assert(sk.take(cut)[1] == hash@[kk as int + 1]);
                } else {
                    assert(b1 == 0 && b2 == 0);
                }
                if cut > 2 {
                    assert(sk.take(cut)[2] == hash@[kk as int + 2]);
                } else {
                    assert(b2 == 0);
                }
            }
            assert(hi == hi24);
        } else {
            let w = choose|j: int| top_start <= j < 32 && hash@[j] != 0;
            assert(sk.skip(cut)[w - top_start] == hash@[w]);
            assert(le_to_int(sk.skip(cut)) != 0);
            lemma_le_to_int_bound(sk.skip(cut));
            assert(le_to_int(sk.skip(cut)) >= 1);
            lemma_le_to_int_bound(sk.take(cut));
            assert(pow(256, cut as nat) >= pow(256, 1)) by {
                vstd::arithmetic::power::lemma_pow_increases(256, 1, cut as nat);
            }
            assert(pow(256, 1) == 256) by {
                vstd::arithmetic::power::lemma_pow1(256);
            }
            assert(hi == le_to_int(sk.take(cut)) + pow(256, cut as nat) * le_to_int(sk.skip(cut)));
            assert(pow(256, cut as nat) * le_to_int(sk.skip(cut)) >= pow(256, cut as nat) * 1)
                by (nonlinear_arith)
                requires
                    le_to_int(sk.skip(cut)) >= 1,
                    pow(256, cut as nat) > 0,
            ;
            assert(pow(256, 3) == 0x1000000) by {
                reveal_with_fuel(vstd::arithmetic::power::pow, 4);
            }
            assert(pow(256, cut as nat) <= pow(256, 3)) by {
                vstd::arithmetic::power::lemma_pow_increases(256, cut as nat, 3);
            }
            // cut < 3 would mean the top region is within the mantissa
            // bytes, yet a nonzero byte sits at or above position 32
            assert(cut == 3);
            assert(hi >= 0x1000000);
        }
    }
    if !top_zero {
        proof {
            // hi > mant, so the hash exceeds the target
            assert(p * hi >= p * 0x1000000 > p * (mant as int)) by (nonlinear_arith)
                requires
                    hi >= 0x1000000,
                    mant < 0x1000000,
                    p > 0,
            ;
            assert(le_to_int(hash@) >= p * hi) by {
                assert(low >= 0);
            }
        }
        return false;
    }
    if hi24 < mant {
        proof {
            assert(low < p);
            assert(le_to_int(hash@) == low + p * hi24);
            assert(low + p * hi24 < p * (hi24 + 1)) by (nonlinear_arith)
                requires
                    low < p,
                    p > 0,
            ;
            assert(p * (hi24 + 1) <= p * (mant as int)) by (nonlinear_arith)
                requires
                    hi24 + 1 <= mant,
                    p > 0,
            ;
            assert(mant * p == p * (mant as int)) by (nonlinear_arith);
        }
        true
    } else if hi24 > mant {
        proof {
            assert(le_to_int(hash@) >= p * hi24) by {
                assert(low >= 0);
            }
            assert(p * hi24 >= p * (mant as int + 1)) by (nonlinear_arith)
                requires
                    hi24 >= mant + 1,
                    p > 0,
            ;
            assert(p * (mant as int + 1) > p * (mant as int)) by (nonlinear_arith)
                requires
                    p > 0,
            ;
            assert(mant * p == p * (mant as int)) by (nonlinear_arith);
        }
        false
    } else {
        // equal in the mantissa window: the low part decides
        let mut z: usize = 0;
        let mut low_zero = true;
        while z < kk
            invariant
                z <= kk,
                kk <= hash@.len(),
                low_zero <==> (forall|j: int| 0 <= j < z ==> hash@[j] == 0),
            decreases kk - z,
        {
            if hash[z] != 0 {
                low_zero = false;
            }
            z = z + 1;
        }
        proof {
            lemma_le_zero(hash@.take(kk as int));
            assert forall|j: int| 0 <= j < kk implies hash@.take(kk as int)[j] == hash@[j] by {}
            assert(le_to_int(hash@) == low + p * (mant as int));
            assert(mant * p == p * (mant as int)) by (nonlinear_arith);
            if low_zero {
                assert(forall|j: int| 0 <= j < kk ==> hash@.take(kk as int)[j] == 0);
                assert(low == 0);
            } else {
                let w = choose|j: int| 0 <= j < kk && hash@[j] != 0;
                assert(hash@.take(kk as int)[w] != 0);
                assert(low != 0);
                assert(low > 0);
            }
        }
        low_zero
    }
}

/// Checks a header's proof of work: the target its own bits field
/// encodes must be nonzero, no easier than signet's maximum attainable
/// target, and at least the block hash.
pub fn check_pow(hash: &Vec<u8>, bits: u32) -> (r: bool)
    requires
        hash@.len() == 32,
    ensures
        r == (target_of_bits(bits) != 0 && target_of_bits(bits) <= signet_max_target()
            && le_to_int(hash@) <= target_of_bits(bits)),
{
    let e = bits >> 24;
    let m0 = bits & 0xFFFFFF;
    let (mant, k): (u32, u32) = if e <= 3 {
        let sh: u32 = 8 * (3 - e);
        let m = m0 >> sh;
        proof {
            assert(m0 >> sh <= m0) by (bit_vector);
        }
        (m, 0)
    } else {
        (m0, e - 3)
    };
    proof {
        assert(bits & 0xFFFFFF <= 0xFFFFFF) by (bit_vector);
        assert(pow(256, 0) == 1) by {
            vstd::arithmetic::power::lemma_pow0(256);
        }
        vstd::arithmetic::power::lemma_pow_positive(256, k as nat);
        assert(vstd::arithmetic::power2::pow2(0) == 1) by {
            vstd::arithmetic::power2::lemma_pow2(0);
            vstd::arithmetic::power::lemma_pow0(2);
        }
    }
    if mant == 0 || mant > 0x7FFFFF {
        proof {
            if mant <= 0x7FFFFF {
                let shs: nat = if e <= 3 {
                    0
                } else {
                    (8 * (e - 3)) as nat
                };
                let x = vstd::arithmetic::power2::pow2(shs) as int;
                assert(mant * x == 0) by (nonlinear_arith)
                    requires
                        mant == 0,
                ;
            }
        }
        return false;
    }
    proof {
        lemma_pow2_bytes(k as nat);
        vstd::arithmetic::power::lemma_pow_positive(256, k as nat);
        assert(target_of_bits(bits) == mant * pow(256, k as nat));
        assert(mant * pow(256, k as nat) > 0) by (nonlinear_arith)
            requires
                mant >= 1,
                pow(256, k as nat) > 0,
        ;
        lemma_target_cap(mant, k);
    }
    let within_cap = if k <= 26 {
        true
    } else if k == 27 {
        mant <= 0x0377AE
    } else if k == 28 {
        mant <= 0x377
    } else {
        k == 29 && mant <= 3
    };
    if !within_cap {
        return false;
    }
    hash_le_target(hash, mant, k)
}

/// Eight binary doublings make one byte: `pow2(8k) == 256^k`.
proof fn lemma_pow2_bytes(k: nat)
    ensures
        vstd::arithmetic::power2::pow2(8 * k) == pow(256, k),
{
    vstd::arithmetic::power2::lemma_pow2(8 * k);
    vstd::arithmetic::power::lemma_pow_multiplies(2, 8, k);
    assert(pow(2, 8) == 256) by {
        reveal_with_fuel(vstd::arithmetic::power::pow, 9);
    }
}


/// Copies a header.
pub fn clone_header(h: &Header) -> (r: Header)
    ensures
        r@ == h@,
{
    Header {
        version: h.version,
        prev_blockhash: clone_bytes(&h.prev_blockhash),
        merkle_root: clone_bytes(&h.merkle_root),
        time: h.time,
        bits: h.bits,
        nonce: h.nonce,
    }
}

/// Whether some input of some transaction of the block spends `op`.
pub open spec fn spent_in_block(txs: Seq<TxV>, op: OutPointV) -> bool {
    exists|i: int, j: int|
        0 <= i < txs.len() && 0 <= j < txs[i].input.len() && (#[trigger] txs[i].input[j]).previous_output
            == op
}

/// The packed header code of an output created at `height` by the
/// transaction at position `t`: the height shifted up one, with the low
/// bit marking the coinbase.
pub open spec fn header_code_at(height: u32, t: int) -> u32
    recommends
        height < 0x8000_0000,
{
    if t == 0 {
        (height * 2 + 1) as u32
    } else {
        (height * 2) as u32
    }
}

/// The leaf hashes of the outputs of the transaction at `t`, from
/// output `j` on, skipping outputs spent within the same block.
pub open spec fn tx_additions(txs: Seq<TxV>, t: int, j: int, bh: Seq<u8>, hc: u32) -> Seq<Seq<u8>>
    recommends
        0 <= t < txs.len(),
    decreases txs[t].output.len() - j,
{
    if j < 0 || j >= txs[t].output.len() {
        Seq::empty()
    } else {
        let op = OutPointV { txid: txs[t].txid, vout: j as u32 };
        (if spent_in_block(txs, op) {
            Seq::<Seq<u8>>::empty()
        } else {
            seq![
                leaf_hash_of(bh, op, hc, txs[t].output[j].value, txs[t].output[j].script_pubkey),
            ]
        }) + tx_additions(txs, t, j + 1, bh, hc)
    }
}

/// The accumulator additions of a block: a leaf hash for every output
/// not spent within the block, transactions in order.
pub open spec fn additions_from(txs: Seq<TxV>, t: int, bh: Seq<u8>, height: u32) -> Seq<Seq<u8>>
    decreases txs.len() - t,
{
    if t < 0 || t >= txs.len() {
        Seq::empty()
    } else {
        tx_additions(txs, t, 0, bh, header_code_at(height, t)) + additions_from(
            txs,
            t + 1,
            bh,
            height,
        )
    }
}

/// Whether any input of the block spends the outpoint.
pub fn outpoint_spent_in_block(txs: &Vec<Transaction>, op: &OutPoint) -> (r: bool)
    ensures
        r == spent_in_block(txs_view(txs@), op@),
{
    let ghost tv = txs_view(txs@);
    let mut i: usize = 0;
    while i < txs.len()
        invariant
            i <= txs@.len(),
            tv == txs_view(txs@),
            forall|a: int, b: int|
                0 <= a < i && 0 <= b < tv[a].input.len() ==> (#[trigger] tv[a].input[b]).previous_output
                    != op@,
        decreases txs@.len() - i,
    {
        let tx = &txs[i];
        let mut j: usize = 0;
        while j < tx.input.len()
            invariant
                i < txs@.len(),
                j <= tx.input@.len(),
                tv == txs_view(txs@),
                tv[i as int].input.len() == tx.input@.len(),
                forall|b: int| 0 <= b < tx.input@.len() ==> (#[trigger] tx.input@[b]@)
                    == tv[i as int].input[b],
                forall|a: int, b: int|
                    0 <= a < i && 0 <= b < tv[a].input.len() ==> (#[trigger] tv[a].input[b]).previous_output
                        != op@,
                forall|b: int|
                    0 <= b < j ==> (#[trigger] tv[i as int].input[b]).previous_output != op@,
            decreases tx.input@.len() - j,
        {
            proof {
                assert(tx.input@[j as int]@ == tv[i as int].input[j as int]);
            }
            if outpoint_eq(&tx.input[j].previous_output, op) {
                proof {
                    assert(tv[i as int].input[j as int].previous_output == op@);
                }
                return true;
            }
            j = j + 1;
        }
        i = i + 1;
    }
    proof {
        if spent_in_block(tv, op@) {
            let (a, b): (int, int) = choose|a: int, b: int|
                0 <= a < tv.len() && 0 <= b < tv[a].input.len() && (#[trigger] tv[a].input[b]).previous_output
                    == op@;
            assert(false);
        }
    }
    false
}

/// Computes the accumulator additions of a block.
pub fn compute_additions(block: &Block, bh: &Vec<u8>, height: u32) -> (r: Vec<Vec<u8>>)
    requires
        height < 0x8000_0000,
        forall|i: int| 0 <= i < block.txdata@.len() ==> (#[trigger] block.txdata@[i]@).output.len()
            <= u32::MAX,
    ensures
        r.deep_view() == additions_from(txs_view(block.txdata@), 0, bh@, height),
{
    let ghost tv = txs_view(block.txdata@);
    let ghost goal = additions_from(tv, 0, bh@, height);
    let mut adds: Vec<Vec<u8>> = Vec::new();
    let mut t: usize = 0;
    proof {
        assert(adds.deep_view() =~~= Seq::<Seq<u8>>::empty());
        assert(Seq::<Seq<u8>>::empty() + additions_from(tv, 0, bh@, height) =~~= additions_from(
            tv,
            0,
            bh@,
            height,
        ));
    }
    while t < block.txdata.len()
        invariant
            t <= block.txdata@.len(),
            tv == txs_view(block.txdata@),
            height < 0x8000_0000,
            goal == additions_from(tv, 0, bh@, height),
            goal == adds.deep_view() + additions_from(tv, t as int, bh@, height),
            forall|i: int| 0 <= i < block.txdata@.len() ==> (
            #[trigger] block.txdata@[i]@).output.len() <= u32::MAX,
        decreases block.txdata@.len() - t,
    {
        let tx = &block.txdata[t];
        let hc: u32 = if t == 0 {
            height * 2 + 1
        } else {
            height * 2
        };
        proof {
            assert(hc == header_code_at(height, t as int));
            assert(tx@ == tv[t as int]);
        }
        let ghost in_goal = adds.deep_view() + tx_additions(tv, t as int, 0, bh@, hc)
            + additions_from(tv, t as int + 1, bh@, height);
        proof {
            assert(goal =~~= in_goal);
            assert(tx@ == block.txdata@[t as int]@);
            assert(tx@.output.len() <= u32::MAX);
        }
        let mut j: usize = 0;
        while j < tx.output.len()
            invariant
                t < block.txdata@.len(),
                j <= tx.output@.len(),
                tv == txs_view(block.txdata@),
                tx@ == tv[t as int],
                tv[t as int].output.len() == tx.output@.len(),
                tx.output@.len() <= u32::MAX,
                in_goal == adds.deep_view() + tx_additions(tv, t as int, j as int, bh@, hc)
                    + additions_from(tv, t as int + 1, bh@, height),
            decreases tx.output@.len() - j,
        {
            let op = OutPoint { txid: clone_bytes(&tx.txid), vout: j as u32 };
            proof {
                assert(op@ =~= OutPointV { txid: tv[t as int].txid, vout: j as u32 });
                assert(tx.output@[j as int]@ == tv[t as int].output[j as int]);
            }
            let spent = outpoint_spent_in_block(&block.txdata, &op);
            if !spent {
                let out = &tx.output[j];
                let lh = compute_leaf_hash(bh, &op, hc, out.value, &out.script_pubkey);
                let ghost prev = adds.deep_view();
                adds.push(lh);
                proof {
                    assert(adds.deep_view() =~~= prev.push(
                        leaf_hash_of(
                            bh@,
                            op@,
                            hc,
                            tv[t as int].output[j as int].value,
                            tv[t as int].output[j as int].script_pubkey,
                        ),
                    ));
                    assert(adds.deep_view() + tx_additions(tv, t as int, j as int + 1, bh@, hc)
                        =~~= prev + tx_additions(tv, t as int, j as int, bh@, hc));
                }
            }
            j = j + 1;
        }
        proof {
            assert(tx_additions(tv, t as int, tx.output@.len() as int, bh@, hc)
                =~~= Seq::<Seq<u8>>::empty());
            assert(adds.deep_view() + additions_from(tv, t as int + 1, bh@, height) =~~= in_goal);
        }
        t = t + 1;
    }
    proof {
        assert(additions_from(tv, tv.len() as int, bh@, height) =~~= Seq::<Seq<u8>>::empty());
        assert(adds.deep_view() =~~= goal);
    }
    adds
}


/// The persisted spelling of the accumulator commitment: the leaf count
/// followed by each root, length-prefixed.
pub open spec fn roots_ser(leaves: u64, roots: Seq<Seq<u8>>) -> Seq<u8> {
    u64_le(leaves) + roots_list_ser(roots)
}

/// Length-prefixed concatenation of the roots.
pub open spec fn roots_list_ser(roots: Seq<Seq<u8>>) -> Seq<u8>
    decreases roots.len(),
{
    if roots.len() == 0 {
        Seq::empty()
    } else {
        u64_le(roots[0].len() as u64) + roots[0] + roots_list_ser(roots.drop_first())
    }
}

/// Encodes the accumulator commitment for the store.
pub fn serialize_roots(leaves: u64, roots: &Vec<Vec<u8>>) -> (r: Vec<u8>)
    ensures
        r@ == roots_ser(leaves, roots.deep_view()),
{
    let ghost rv = roots.deep_view();
    let mut out: Vec<u8> = Vec::new();
    push_u64_le(&mut out, leaves);
    let mut i: usize = 0;
    proof {
        assert(rv.skip(0) =~~= rv);
        assert(out@ + roots_list_ser(rv) =~= roots_ser(leaves, rv));
    }
    while i < roots.len()
        invariant
            i <= roots@.len(),
            rv == roots.deep_view(),
            rv.len() == roots@.len(),
            roots_ser(leaves, rv) == out@ + roots_list_ser(rv.skip(i as int)),
        decreases roots@.len() - i,
    {
        proof {
            assert(rv.skip(i as int)[0] == rv[i as int]);
            assert(rv.skip(i as int).drop_first() =~~= rv.skip(i as int + 1));
            assert(roots@[i as int].deep_view() =~= roots@[i as int]@);
        }
        push_u64_le(&mut out, roots[i].len() as u64);
        push_bytes(&mut out, &roots[i]);
        proof {
            assert(out@ + roots_list_ser(rv.skip(i as int + 1)) =~= roots_ser(leaves, rv));
        }
        i = i + 1;
    }
    proof {
        assert(roots_list_ser(rv.skip(rv.len() as int)) =~= Seq::<u8>::empty());
        assert(out@ =~= roots_ser(leaves, rv));
    }
    out
}

/// The chain state: best tip, the store behind it, and the accumulator
/// commitment. `ibd` reports whether the node still considers itself in
/// its initial download.
#[derive(Debug)]
pub struct ChainState {
    pub store: WasmStore,
    pub tip_hash: Vec<u8>,
    pub tip_header: Header,
    pub height: u32,
    pub acc_leaves: u64,
    pub acc_roots: Vec<Vec<u8>>,
    pub ibd: bool,
}

impl ChainState {
    /// The accumulator commitment's well-formedness: the leaf count
    /// stays within the forest's addressable range and the roots list
    /// has the stump shape of one root per one-bit of the leaf count.
    /// Constructors establish it and connecting a block preserves it.
    pub open spec fn wf(&self) -> bool {
        &&& self.acc_leaves <= 0x2000_0000_0000_0000
        &&& self.acc_roots.deep_view().len() == popcount(self.acc_leaves)
    }

    /// Whether a block can be connected on top of this state: it links
    /// to the tip, the heights and leaf count stay in range, and the
    /// accumulator accepts both the proof and the update.
    pub open spec fn can_connect(&self, block: BlockV, pf: crate::types::ProofV, dels: Seq<Seq<u8>>) -> bool {
        let bh = block_hash_of(block.header);
        let adds = additions_from(block.txdata, 0, bh, (self.height + 1) as u32);
        &&& block.header.prev_blockhash == self.tip_hash@
        &&& self.height < 0x7FFF_FFFF
        &&& forall|i: int|
            0 <= i < pf.targets.len() ==> target_in_forest(
                #[trigger] pf.targets[i],
                self.acc_leaves,
            )
        &&& self.acc_leaves + adds.len() <= 0x2000_0000_0000_0000
        &&& acc_verifies(self.acc_leaves, self.acc_roots.deep_view(), pf.targets, pf.hashes, dels)
        &&& acc_update_of(
            self.acc_leaves,
            self.acc_roots.deep_view(),
            adds,
            dels,
            pf.targets,
            pf.hashes,
        ) is Some
    }

    /// A chain state bootstrapped from a trusted checkpoint: a known tip
    /// and an assumed accumulator commitment, with no history replayed.
    /// The checkpoint header is journaled under its own block hash, so
    /// header lookups find the tip from the start.
    pub fn from_checkpoint(
        tip_hash: Vec<u8>,
        height: u32,
        header: Header,
        acc_leaves: u64,
        acc_roots: Vec<Vec<u8>>,
    ) -> (r: ChainState)
        requires
            acc_leaves <= 0x2000_0000_0000_0000,
            acc_roots.deep_view().len() == popcount(acc_leaves),
        ensures
            r.wf(),
            r.tip_hash@ == tip_hash@,
            r.height == height,
            r.tip_header@ == header@,
            r.acc_leaves == acc_leaves,
            r.acc_roots.deep_view() == acc_roots.deep_view(),
            r.ibd == true,
            r.store.height matches Some(b) && b@.hash == tip_hash@ && b@.height == height,
            r.store.headers_v() == Seq::<(Seq<u8>, HeaderV)>::empty().push(
                (block_hash_of(header@), header@),
            ),
            r.store.index_v() == Seq::<(u32, Seq<u8>)>::empty(),
            r.store.roots is None,
    {
        let mut store = WasmStore::new();
        let bc = BestChain { hash: clone_bytes(&tip_hash), height };
        let _ = store.save_height(bc);
        let bh = compute_block_hash(&header);
        let _ = store.save_header(bh, clone_header(&header));
        ChainState { store, tip_hash, tip_header: header, height, acc_leaves, acc_roots, ibd: true }
    }

    /// Accepts a header that links to the tip and meets its target; the
    /// header is journaled under its block hash and nothing else moves.
    pub fn accept_header(&mut self, h: &Header) -> (r: Result<(), AcceptError>)
        ensures
            r is Ok <==> h@.prev_blockhash == old(self).tip_hash@ && pow_valid(h@),
            r is Ok ==> final(self).store.headers_v() == old(self).store.headers_v().push(
                (block_hash_of(h@), h@),
            ) && final(self).store.roots == old(self).store.roots && final(self).store.height
                == old(self).store.height && final(self).store.index == old(self).store.index
                && final(self).tip_hash == old(self).tip_hash && final(self).tip_header == old(
                self,
            ).tip_header && final(self).height == old(self).height && final(self).acc_leaves == old(
                self,
            ).acc_leaves && final(self).acc_roots == old(self).acc_roots && final(self).ibd == old(
                self,
            ).ibd,
            r matches Err(e) ==> e == AcceptError::HeaderRejected && *final(self) == *old(self),
    {
        let bh = compute_block_hash(h);
        if !bytes_eq(&h.prev_blockhash, &self.tip_hash) {
            return Err(AcceptError::HeaderRejected);
        }
        if !check_pow(&bh, h.bits) {
            return Err(AcceptError::HeaderRejected);
        }
        let _ = self.store.save_header(bh, clone_header(h));
        Ok(())
    }

    /// Connects a block: verifies the accumulator proof against the
    /// current roots, applies the deletions and the block's new outputs,
    /// and advances tip, height, index and persisted state as one unit.
    /// On any failure the state is exactly what it was.
    pub fn connect_block(
        &mut self,
        block: &Block,
        pf: &Proof,
        inputs: &PrevOutMap,
        del_hashes: &Vec<Vec<u8>>,
    ) -> (r: Result<(), AcceptError>)
        requires
            old(self).wf(),
            forall|i: int| 0 <= i < block.txdata@.len() ==> (
            #[trigger] block.txdata@[i]@).output.len() <= u32::MAX,
        ensures
            final(self).wf(),
            r is Ok <==> old(self).can_connect(block@, pf@, del_hashes.deep_view()),
            r is Ok ==> ({
                let bh = block_hash_of(block@.header);
                let adds = additions_from(
                    block@.txdata,
                    0,
                    bh,
                    (old(self).height + 1) as u32,
                );
                &&& final(self).height == old(self).height + 1
                &&& final(self).tip_hash@ == bh
                &&& final(self).tip_header@ == block@.header
                &&& final(self).acc_leaves == old(self).acc_leaves + adds.len()
                &&& Some(final(self).acc_roots.deep_view()) == acc_update_of(
                    old(self).acc_leaves,
                    old(self).acc_roots.deep_view(),
                    adds,
                    del_hashes.deep_view(),
                    pf@.targets,
                    pf@.hashes,
                )
                &&& final(self).store.index_v() == old(self).store.index_v().push(
                    ((old(self).height + 1) as u32, bh),
                )
                &&& final(self).store.headers_v() == old(self).store.headers_v()
                &&& final(self).store.height matches Some(b) && b@.hash == bh && b@.height == old(
                    self,
                ).height + 1
                &&& final(self).store.roots matches Some(rw) && rw@ == roots_ser(
                    final(self).acc_leaves,
                    final(self).acc_roots.deep_view(),
                )
                &&& final(self).ibd == old(self).ibd
            }),
            r matches Err(e) ==> e == AcceptError::ConnectRejected && *final(self) == *old(self),
    {
        let bh = compute_block_hash(&block.header);
        if !bytes_eq(&block.header.prev_blockhash, &self.tip_hash) {
            return Err(AcceptError::ConnectRejected);
        }
        if self.height >= 0x7FFF_FFFF {
            return Err(AcceptError::ConnectRejected);
        }
        if !targets_in_forest(&pf.targets, self.acc_leaves) {
            return Err(AcceptError::ConnectRejected);
        }
        let new_height = self.height + 1;
        if !stump_verify(self.acc_leaves, &self.acc_roots, &pf.targets, &pf.hashes, del_hashes) {
            return Err(AcceptError::ConnectRejected);
        }
        let adds = compute_additions(block, &bh, new_height);
        if adds.len() as u64 > 0x2000_0000_0000_0000 - self.acc_leaves {
            return Err(AcceptError::ConnectRejected);
        }
        let updated = match stump_modify(
            self.acc_leaves,
            &self.acc_roots,
            &adds,
            del_hashes,
            &pf.targets,
            &pf.hashes,
        ) {
            Some(u) => u,
            None => {
                return Err(AcceptError::ConnectRejected);
            },
        };
        self.acc_leaves = updated.0;
        self.acc_roots = updated.1;
        self.height = new_height;
        self.tip_hash = clone_bytes(&bh);
        self.tip_header = clone_header(&block.header);
        let _ = self.store.update_block_index(new_height, clone_bytes(&bh));
        let _ = self.store.save_height(BestChain { hash: bh, height: new_height });
        let _ = self.store.save_roots(serialize_roots(self.acc_leaves, &self.acc_roots));
        Ok(())
    }
}


/// The 32 little-endian bytes of the target a compact bits field
/// encodes: the mantissa sits at the byte offset its exponent gives;
/// all zero when the mantissa is invalid or the exponent pushes the
/// mantissa past 32 bytes.
pub open spec fn target_bytes_of(bits: u32) -> Seq<u8> {
    let e = bits >> 24;
    let m0 = bits & 0xFFFFFF;
    let mant: u32 = if e <= 3 {
        m0 >> ((8 * (3 - e)) as u32)
    } else {
        m0
    };
    let k: int = if e <= 3 {
        0
    } else {
        e - 3
    };
    if mant == 0 || mant > 0x7FFFFF || e > 32 {
        Seq::new(32, |i: int| 0u8)
    } else {
        Seq::new(
            32,
            |i: int|
                if k <= i < k + 3 {
                    ((mant >> ((8 * (i - k)) as u32)) & 0xFF) as u8
                } else {
                    0u8
                },
        )
    }
}

/// The target bytes stand for the very number the compact field
/// encodes, whenever the exponent keeps the mantissa within 32 bytes.
pub proof fn lemma_target_bytes_value(bits: u32)
    requires
        bits >> 24 <= 32,
    ensures
        le_to_int(target_bytes_of(bits)) == target_of_bits(bits),
{
    let e = bits >> 24;
    let m0 = bits & 0xFFFFFF;
    let mant: u32 = if e <= 3 {
        m0 >> ((8 * (3 - e)) as u32)
    } else {
        m0
    };
    let k: int = if e <= 3 {
        0
    } else {
        e - 3
    };
    let t = target_bytes_of(bits);
    assert(t.len() == 32);
    if mant == 0 || mant > 0x7FFFFF {
        lemma_le_zero(t);
        if mant <= 0x7FFFFF {
            let shs: nat = if e <= 3 {
                0
            } else {
                (8 * (e - 3)) as nat
            };
            let x = vstd::arithmetic::power2::pow2(shs) as int;
            assert((mant as int) * x == 0) by (nonlinear_arith)
                requires
                    mant == 0,
            ;
        }
    } else {
        lemma_le_split(t, k);
        lemma_le_zero(t.take(k));
        assert(forall|i: int| 0 <= i < k ==> t.take(k)[i] == 0);
        assert(le_to_int(t.take(k)) == 0);
        let sk = t.skip(k);
        lemma_le_split(sk, 3);
        lemma_le_zero(sk.skip(3));
        assert(forall|i: int| 0 <= i < sk.skip(3).len() ==> sk.skip(3)[i] == 0) by {
            assert(forall|i: int| 0 <= i < sk.skip(3).len() ==> sk.skip(3)[i] == t[k + 3 + i]);
        }
        assert(le_to_int(sk.skip(3)) == 0);
        lemma_le_up_to_3(sk.take(3));
        assert(sk.take(3)[0] == t[k] && sk.take(3)[1] == t[k + 1] && sk.take(3)[2] == t[k + 2]);
        let b0 = (mant >> 0u32) & 0xFF;
        let b1 = (mant >> 8u32) & 0xFF;
        let b2 = (mant >> 16u32) & 0xFF;
        assert(b0 + 256 * b1 + 65536 * b2 == mant) by (bit_vector)
            requires
                mant <= 0x7FFFFF,
                b0 == (mant >> 0u32) & 0xFF,
                b1 == (mant >> 8u32) & 0xFF,
                b2 == (mant >> 16u32) & 0xFF,
        ;
        assert(b0 <= 0xFF && b1 <= 0xFF && b2 <= 0xFF) by (bit_vector)
            requires
                b0 == (mant >> 0u32) & 0xFF,
                b1 == (mant >> 8u32) & 0xFF,
                b2 == (mant >> 16u32) & 0xFF,
        ;
        assert(t[k] == (b0 as u8) && t[k + 1] == (b1 as u8) && t[k + 2] == (b2 as u8));
        assert(le_to_int(sk.take(3)) == b0 + 256 * b1 + 65536 * b2);
        assert(le_to_int(sk) == le_to_int(sk.take(3)) + pow(256, 3) * le_to_int(sk.skip(3)));
        assert(pow(256, 3) * 0 == 0) by (nonlinear_arith);
        assert(le_to_int(sk) == mant);
        lemma_pow2_bytes(k as nat);
        assert(le_to_int(t) == pow(256, k as nat) * (mant as int));
        assert(pow(256, k as nat) * (mant as int) == (mant as int) * pow(256, k as nat))
            by (nonlinear_arith);
    }
}

/// Builds the 32 little-endian target bytes for a compact bits field.
pub fn target_to_bytes(bits: u32) -> (r: Vec<u8>)
    ensures
        r@ == target_bytes_of(bits),
        r@.len() == 32,
{
    let e = bits >> 24;
    let m0 = bits & 0xFFFFFF;
    let mant: u32 = if e <= 3 {
        let sh: u32 = 8 * (3 - e);
        let m = m0 >> sh;
        proof {
            assert(m0 >> sh <= m0) by (bit_vector);
            assert(bits & 0xFFFFFF <= 0xFFFFFF) by (bit_vector);
        }
        m
    } else {
        proof {
            assert(bits & 0xFFFFFF <= 0xFFFFFF) by (bit_vector);
        }
        m0
    };
    let k: usize = if e <= 3 {
        0
    } else {
        (e - 3) as usize
    };
    let mut out: Vec<u8> = Vec::new();
    if mant == 0 || mant > 0x7FFFFF || e > 32 {
        let mut i: usize = 0;
        while i < 32
            invariant
                i <= 32,
                out@.len() == i,
                forall|j: int| 0 <= j < i ==> out@[j] == 0u8,
            decreases 32 - i,
        {
            out.push(0);
            i = i + 1;
        }
        proof {
            assert(out@ =~= target_bytes_of(bits));
        }
        return out;
    }
    let mut i: usize = 0;
    while i < 32
        invariant
            i <= 32,
            out@.len() == i,
            k == (if e <= 3 {
                0int
            } else {
                e - 3
            }),
            e <= 32,
            forall|j: int|
                0 <= j < i ==> out@[j] == (if k <= j < k + 3 {
                    ((mant >> ((8 * (j - k)) as u32)) & 0xFF) as u8
                } else {
                    0u8
                }),
        decreases 32 - i,
    {
        if i >= k && i < k + 3 {
            let sh: u32 = 8 * ((i - k) as u32);
            out.push(((mant >> sh) & 0xFF) as u8);
        } else {
            out.push(0);
        }
        i = i + 1;
    }
    proof {
        assert(out@ =~= target_bytes_of(bits));
    }
    out
}

} // verus!
