//! The node: one chain state, the checkpoint hash table and one wallet,
//! tied together by the block-acceptance path. A block is parsed, its
//! header accepted, its spends reconstructed, its proof checked, and
//! only when the chain advances does the wallet see the block's
//! relevant transactions.

use vstd::prelude::*;
use crate::types::{Header, HeaderV, ProofV, TxV, WasmBlock, AcceptError};
use crate::bytesutil::clone_bytes;
use crate::hexcode::{hex_encode, hex_of_bytes};
use crate::codec::{block_hash_of, decode_hashes, proof_from_wire};
use crate::digest::{target_of_bits, difficulty_of_bits, difficulty_of_bits_spec, spk_of_addr};
use crate::chain::{ChainState, pow_valid, additions_from, target_bytes_of, target_to_bytes};
use crate::wallet::{Wallet, scan_spec};
use crate::procproof::{process_proof, process_model, txs_view, leaves_view};
use crate::accumulator::{acc_update_of, popcount, count_ones};

verus! {

/// The node: chain state, the flat checkpoint hash table used by the
/// height resolver below the assumed-valid point, and the wallet.
#[derive(Debug)]
pub struct FlorestaChain {
    pub chain_state: ChainState,
    pub hashes: Vec<u8>,
    pub wallet: Wallet,
}

impl FlorestaChain {
    /// Whether a block envelope would be accepted on this state: the
    /// proof's hashes decode, targets align with the leaves one to one,
    /// the header links to the tip under its own target, reconstruction
    /// succeeds, and the accumulator accepts the deletions and update.
    pub open spec fn accepts(&self, wb: WasmBlock) -> bool {
        let hs = decode_hashes(wb.proof.hashes.deep_view());
        let model = process_model(
            leaves_view(wb.leaf_data@),
            txs_view(wb.block.txdata@),
            self.chain_state.store.index_v(),
            self.hashes@,
        );
        &&& hs is Some
        &&& wb.proof.targets@.len() == wb.leaf_data@.len()
        &&& wb.block.header@.prev_blockhash == self.chain_state.tip_hash@
        &&& pow_valid(wb.block.header@)
        &&& model is Ok
        &&& self.chain_state.can_connect(
            wb.block@,
            ProofV { targets: wb.proof.targets@, hashes: hs.unwrap() },
            model.unwrap().dels,
        )
    }

    /// A fresh node with an empty chain, an empty hash table and an
    /// empty wallet.
    pub fn new() -> (r: FlorestaChain)
        ensures
            r.chain_state.height == 0,
            r.chain_state.acc_leaves == 0,
            r.chain_state.acc_roots.deep_view() == Seq::<Seq<u8>>::empty(),
            r.chain_state.ibd == true,
            r.hashes@ == Seq::<u8>::empty(),
            r.wallet.addr_set() == Set::<Seq<u8>>::empty(),
            r.wallet.tx_list() == Seq::<TxV>::empty(),
            r.chain_state.wf(),
            r.chain_state.store.headers_v() == Seq::<(Seq<u8>, HeaderV)>::empty().push(
                (block_hash_of(r.chain_state.tip_header@), r.chain_state.tip_header@),
            ),
            r.chain_state.store.index_v() == Seq::<(u32, Seq<u8>)>::empty(),
            r.chain_state.store.roots is None,
            r.chain_state.store.height matches Some(b) && b@.hash == r.chain_state.tip_hash@
                && b@.height == 0,
    {
        let mut zero: Vec<u8> = Vec::new();
        let mut i: usize = 0;
        while i < 32
            invariant
                i <= 32,
            decreases 32 - i,
        {
            zero.push(0);
            i = i + 1;
        }
        let header = Header {
            version: 0,
            prev_blockhash: clone_bytes(&zero),
            merkle_root: clone_bytes(&zero),
            time: 0,
            bits: 0,
            nonce: 0,
        };
        let empty_roots: Vec<Vec<u8>> = Vec::new();
        proof {
            assert(empty_roots.deep_view() =~~= Seq::<Seq<u8>>::empty());
        }
        let chain_state = ChainState::from_checkpoint(zero, 0, header, 0, empty_roots);
        let r = FlorestaChain { chain_state, hashes: Vec::new(), wallet: Wallet::new() };
        proof {
            assert(r.chain_state.acc_roots.deep_view() =~~= Seq::<Seq<u8>>::empty());
            assert(r.hashes@ =~= Seq::<u8>::empty());
        }
        r
    }

    /// A node bootstrapped from a trusted checkpoint: a known tip, its
    /// header, an assumed accumulator commitment and the flat table of
    /// block hashes below the checkpoint. The claimed commitment is
    /// checked: the leaf count must stay addressable and the roots list
    /// must have the stump shape — one root per one-bit of the leaf
    /// count, each 32 bytes or empty — else the checkpoint is refused.
    pub fn build_chain_from(
        tip: Vec<u8>,
        height: u32,
        header: Header,
        acc_leaves: u64,
        acc_roots: Vec<Vec<u8>>,
        hashes: Vec<u8>,
    ) -> (r: Result<FlorestaChain, AcceptError>)
        ensures
            r is Ok <==> tip@.len() == 32 && acc_leaves <= 0x2000_0000_0000_0000
                && acc_roots.deep_view().len() == popcount(acc_leaves) && (forall|i: int|
                0 <= i < acc_roots.deep_view().len() ==> ((
                #[trigger] acc_roots.deep_view()[i]).len() == 32 || acc_roots.deep_view()[
                    i
                ].len() == 0)),
            r matches Ok(c) ==> c.chain_state.wf() && c.chain_state.tip_hash@ == tip@
                && c.chain_state.height == height && c.chain_state.tip_header@ == header@
                && c.chain_state.acc_leaves == acc_leaves && c.chain_state.acc_roots.deep_view()
                == acc_roots.deep_view() && c.chain_state.ibd == true && c.hashes@ == hashes@
                && c.wallet.addr_set() == Set::<Seq<u8>>::empty() && c.wallet.tx_list()
                == Seq::<TxV>::empty() && c.chain_state.store.headers_v() == Seq::<
                (Seq<u8>, HeaderV),
            >::empty().push((block_hash_of(header@), header@)) && c.chain_state.store.index_v()
                == Seq::<(u32, Seq<u8>)>::empty() && c.chain_state.store.roots is None && (
            c.chain_state.store.height matches Some(b) && b@.hash == tip@ && b@.height == height),
            r matches Err(e) ==> e == AcceptError::MalformedInput,
    {
        if tip.len() != 32 {
            return Err(AcceptError::MalformedInput);
        }
        if acc_leaves > 0x2000_0000_0000_0000 {
            return Err(AcceptError::MalformedInput);
        }
        let expected = count_ones(acc_leaves);
        if acc_roots.len() as u64 != expected {
            return Err(AcceptError::MalformedInput);
        }
        let mut i: usize = 0;
        while i < acc_roots.len()
            invariant
                i <= acc_roots@.len(),
                forall|k: int|
                    0 <= k < i ==> ((#[trigger] acc_roots.deep_view()[k]).len() == 32
                        || acc_roots.deep_view()[k].len() == 0),
            decreases acc_roots@.len() - i,
        {
            let n = acc_roots[i].len();
            proof {
                assert(acc_roots@[i as int].deep_view() =~= acc_roots@[i as int]@);
            }
            if n != 32 && n != 0 {
                proof {
                    assert(acc_roots.deep_view()[i as int].len() == n);
                }
                return Err(AcceptError::MalformedInput);
            }
            i = i + 1;
        }
        let chain_state = ChainState::from_checkpoint(tip, height, header, acc_leaves, acc_roots);
        Ok(FlorestaChain { chain_state, hashes, wallet: Wallet::new() })
    }

    /// The current height of the chain.
    pub fn show_height(&self) -> (r: u32)
        ensures
            r == self.chain_state.height,
    {
        self.chain_state.height
    }

    /// Whether the node still considers itself in its initial download.
    pub fn show_ibd(&self) -> (r: bool)
        ensures
            r == self.chain_state.ibd,
    {
        self.chain_state.ibd
    }

    /// The network this node follows.
    pub fn show_network(&self) -> (r: String)
        ensures
            r@ == "Signet"@,
    {
        String::from_str("Signet")
    }

    /// Leaves initial-download mode.
    pub fn toggle_ibd(&mut self)
        ensures
            final(self).chain_state.ibd == false,
            final(self).chain_state.store == old(self).chain_state.store,
            final(self).chain_state.height == old(self).chain_state.height,
            final(self).chain_state.tip_hash == old(self).chain_state.tip_hash,
            final(self).chain_state.tip_header == old(self).chain_state.tip_header,
            final(self).chain_state.acc_leaves == old(self).chain_state.acc_leaves,
            final(self).chain_state.acc_roots == old(self).chain_state.acc_roots,
            final(self).hashes == old(self).hashes,
            final(self).wallet == old(self).wallet,
    {
        self.chain_state.ibd = false;
    }

    /// The best block hash, spelled in hex with the byte order reversed,
    /// as block hashes are conventionally displayed.
    pub fn return_tip(&self) -> (r: String)
        ensures
            r@ == hex_of_bytes(self.chain_state.tip_hash@.reverse()),
    {
        let mut rev: Vec<u8> = Vec::new();
        let n = self.chain_state.tip_hash.len();
        let mut i: usize = 0;
        while i < n
            invariant
                i <= n,
                n == self.chain_state.tip_hash@.len(),
                rev@.len() == i,
                forall|k: int| 0 <= k < i ==> rev@[k] == self.chain_state.tip_hash@[n - 1 - k],
            decreases n - i,
        {
            rev.push(self.chain_state.tip_hash[n - 1 - i]);
            i = i + 1;
        }
        proof {
            assert(rev@ =~= self.chain_state.tip_hash@.reverse());
        }
        hex_encode(&rev)
    }

    /// The target the tip's bits field encodes, spelled in hex with the
    /// most significant byte first.
    pub fn show_target(&self) -> (r: String)
        ensures
            r@ == hex_of_bytes(target_bytes_of(self.chain_state.tip_header@.bits).reverse()),
    {
        let t = target_to_bytes(self.chain_state.tip_header.bits);
        let mut rev: Vec<u8> = Vec::new();
        let mut i: usize = 0;
        while i < 32
            invariant
                i <= 32,
                t@.len() == 32,
                rev@.len() == i,
                forall|k: int| 0 <= k < i ==> rev@[k] == t@[31 - k],
            decreases 32 - i,
        {
            rev.push(t[31 - i]);
            i = i + 1;
        }
        proof {
            assert(rev@ =~= t@.reverse());
        }
        hex_encode(&rev)
    }

    /// The difficulty of the tip, the quotient of signet's maximum
    /// target by the tip's target, truncated to 64 bits; zero when the
    /// tip's bits field encodes no positive target.
    pub fn show_difficulty(&self) -> (r: u64)
        ensures
            r == (if target_of_bits(self.chain_state.tip_header@.bits) != 0
                && self.chain_state.tip_header@.bits >> 24 <= 32 {
                difficulty_of_bits_spec(self.chain_state.tip_header@.bits)
            } else {
                0u64
            }),
    {
        let bits = self.chain_state.tip_header.bits;
        let e = bits >> 24;
        let m0 = bits & 0xFFFFFF;
        let mant: u32 = if e <= 3 {
            let sh: u32 = 8 * (3 - e);
            let m = m0 >> sh;
            proof {
                assert(m0 >> sh <= m0) by (bit_vector);
                assert(bits & 0xFFFFFF <= 0xFFFFFF) by (bit_vector);
            }
            m
        } else {
            proof {
                assert(bits & 0xFFFFFF <= 0xFFFFFF) by (bit_vector);
            }
            m0
        };
        if e > 32 || mant == 0 || mant > 0x7FFFFF {
            proof {
                let shs: nat = if e <= 3 {
                    0
                } else {
                    (8 * (e - 3)) as nat
                };
                let x = vstd::arithmetic::power2::pow2(shs) as int;
                if mant == 0 {
                    assert((mant as int) * x == 0) by (nonlinear_arith)
                        requires
                            mant == 0,
                    ;
                }
            }
            return 0;
        }
        proof {
            let shs: nat = if e <= 3 {
                0
            } else {
                (8 * (e - 3)) as nat
            };
            vstd::arithmetic::power2::lemma_pow2_pos(shs);
            let x = vstd::arithmetic::power2::pow2(shs) as int;
            assert((mant as int) * x > 0) by (nonlinear_arith)
                requires
                    mant >= 1,
                    x > 0,
            ;
        }
        difficulty_of_bits(bits)
    }

    /// Watches the locking script of an address; fails with
    /// `InvalidAddress` when the string is not a valid signet address.
    pub fn add_address(&mut self, addr: &str) -> (r: Result<(), AcceptError>)
        ensures
            r is Ok <==> spk_of_addr(addr@) is Some,
            r matches Ok(u) ==> final(self).wallet.addr_set() == old(self).wallet.addr_set()
                .insert(spk_of_addr(addr@).unwrap()) && final(self).wallet.transaction_list == old(
                self,
            ).wallet.transaction_list,
            r matches Err(e) ==> e == AcceptError::InvalidAddress && *final(self) == *old(self),
            final(self).chain_state == old(self).chain_state,
            final(self).hashes == old(self).hashes,
    {
        self.wallet.watch(addr)
    }

    /// The ids of the wallet's relevant transactions, newest last, each
    /// spelled in reversed hex as transaction ids are displayed.
    pub fn get_our_transactions(&self) -> (r: Vec<String>)
        ensures
            r@.len() == self.wallet.tx_list().len(),
            forall|i: int|
                0 <= i < r@.len() ==> (#[trigger] r@[i])@ == hex_of_bytes(
                    self.wallet.tx_list()[i].txid.reverse(),
                ),
    {
        let mut out: Vec<String> = Vec::new();
        let mut i: usize = 0;
        while i < self.wallet.transaction_list.len()
            invariant
                i <= self.wallet.transaction_list@.len(),
                out@.len() == i,
                forall|k: int|
                    0 <= k < i ==> (#[trigger] out@[k])@ == hex_of_bytes(
                        self.wallet.tx_list()[k].txid.reverse(),
                    ),
            decreases self.wallet.transaction_list@.len() - i,
        {
            let txid = &self.wallet.transaction_list[i].txid;
            let mut rev: Vec<u8> = Vec::new();
            let n = txid.len();
            let mut k: usize = 0;
            while k < n
                invariant
                    k <= n,
                    n == txid@.len(),
                    rev@.len() == k,
                    forall|q: int| 0 <= q < k ==> rev@[q] == txid@[n - 1 - q],
                decreases n - k,
            {
                rev.push(txid[n - 1 - k]);
                k = k + 1;
            }
            proof {
                assert(rev@ =~= txid@.reverse());
                assert(self.wallet.tx_list()[i as int].txid == txid@);
            }
            out.push(hex_encode(&rev));
            i = i + 1;
        }
        out
    }

    /// Accepts a block envelope: parses the wire proof, accepts the
    /// header, reconstructs the spends, verifies and applies the
    /// accumulator update, and only then commits the block's relevant
    /// transactions to the wallet. On failure the height, the roots and
    /// the wallet are exactly what they were; an accepted header may
    /// remain journaled.
    pub fn accept_block(&mut self, block: &WasmBlock) -> (r: Result<(), AcceptError>)
        requires
            old(self).chain_state.wf(),
            forall|i: int| 0 <= i < block.block.txdata@.len() ==> (
            #[trigger] block.block.txdata@[i]@).output.len() <= u32::MAX,
        ensures
            final(self).chain_state.wf(),
            r is Ok <==> old(self).accepts(*block),
            r is Ok ==> ({
                let st = process_model(
                    leaves_view(block.leaf_data@),
                    txs_view(block.block.txdata@),
                    old(self).chain_state.store.index_v(),
                    old(self).hashes@,
                );
                let hs = decode_hashes(block.proof.hashes.deep_view());
                let bh = block_hash_of(block.block.header@);
                let adds = additions_from(
                    txs_view(block.block.txdata@),
                    0,
                    bh,
                    (old(self).chain_state.height + 1) as u32,
                );
                &&& final(self).chain_state.height == old(self).chain_state.height + 1
                &&& final(self).chain_state.tip_hash@ == bh
                &&& final(self).chain_state.acc_leaves == old(self).chain_state.acc_leaves
                    + adds.len()
                &&& Some(final(self).chain_state.acc_roots.deep_view()) == acc_update_of(
                    old(self).chain_state.acc_leaves,
                    old(self).chain_state.acc_roots.deep_view(),
                    adds,
                    st.unwrap().dels,
                    block.proof.targets@,
                    hs.unwrap(),
                )
                &&& final(self).wallet.tx_list() == old(self).wallet.tx_list() + scan_spec(
                    old(self).wallet.addr_set(),
                    txs_view(block.block.txdata@),
                )
                &&& final(self).wallet.addr_set() == old(self).wallet.addr_set()
            }),
            r is Err ==> ({
                &&& final(self).chain_state.height == old(self).chain_state.height
                &&& final(self).chain_state.tip_hash == old(self).chain_state.tip_hash
                &&& final(self).chain_state.acc_leaves == old(self).chain_state.acc_leaves
                &&& final(self).chain_state.acc_roots == old(self).chain_state.acc_roots
                &&& final(self).wallet == old(self).wallet
                &&& final(self).hashes == old(self).hashes
                &&& final(self).chain_state.ibd == old(self).chain_state.ibd
                &&& final(self).chain_state.store.index == old(self).chain_state.store.index
                &&& final(self).chain_state.store.height == old(self).chain_state.store.height
                &&& final(self).chain_state.store.roots == old(self).chain_state.store.roots
            }),
            decode_hashes(block.proof.hashes.deep_view()) is None ==> r == Err::<(), AcceptError>(
                AcceptError::MalformedInput,
            ) && *final(self) == *old(self),
            decode_hashes(block.proof.hashes.deep_view()) is Some && !(
            block.block.header@.prev_blockhash == old(self).chain_state.tip_hash@ && pow_valid(
                block.block.header@,
            )) ==> r == Err::<(), AcceptError>(AcceptError::HeaderRejected) && *final(self)
                == *old(self),
            ({
                let hs = decode_hashes(block.proof.hashes.deep_view());
                let model = process_model(
                    leaves_view(block.leaf_data@),
                    txs_view(block.block.txdata@),
                    old(self).chain_state.store.index_v(),
                    old(self).hashes@,
                );
                hs is Some && (block.block.header@.prev_blockhash == old(self).chain_state.tip_hash@
                    && pow_valid(block.block.header@)) ==> final(self).chain_state.store.headers_v()
                    == old(self).chain_state.store.headers_v().push(
                    (block_hash_of(block.block.header@), block.block.header@),
                ) && (block.proof.targets@.len() != block.leaf_data@.len() ==> r == Err::<
                    (),
                    AcceptError,
                >(AcceptError::InvalidProof)) && (block.proof.targets@.len()
                    == block.leaf_data@.len() ==> (model matches Err(me) ==> r == Err::<
                    (),
                    AcceptError,
                >(me)) && (model is Ok && !old(self).accepts(*block) ==> r == Err::<
                    (),
                    AcceptError,
                >(AcceptError::ConnectRejected)))
            }),
    {
        let pf = match proof_from_wire(&block.proof) {
            Ok(p) => p,
            Err(_) => {
                return Err(AcceptError::MalformedInput);
            },
        };
        match self.chain_state.accept_header(&block.block.header) {
            Ok(_) => (),
            Err(_) => {
                return Err(AcceptError::HeaderRejected);
            },
        }
        if pf.targets.len() != block.leaf_data.len() {
            return Err(AcceptError::InvalidProof);
        }
        let (dels, inputs_map) = match process_proof(
            &block.leaf_data,
            &block.block.txdata,
            &self.chain_state.store,
            &self.hashes,
        ) {
            Ok(p) => p,
            Err(e) => {
                return Err(e);
            },
        };
        proof {
            assert(self.chain_state.store.index_v() =~~= old(self).chain_state.store.index_v());
        }
        // collect the candidate relevant transactions before connecting
        let ghost tv = txs_view(block.block.txdata@);
        let mut candidates = self.wallet.scan(&block.block.txdata);
        match self.chain_state.connect_block(&block.block, &pf, &inputs_map, &dels) {
            Ok(_) => (),
            Err(_) => {
                return Err(AcceptError::ConnectRejected);
            },
        }
        let ghost old_list = txs_view(self.wallet.transaction_list@);
        self.wallet.transaction_list.append(&mut candidates);
        proof {
            assert(txs_view(self.wallet.transaction_list@) =~~= old_list + scan_spec(
                old(self).wallet.addr_set(),
                tv,
            ));
        }
        Ok(())
    }
}

} // verus!
