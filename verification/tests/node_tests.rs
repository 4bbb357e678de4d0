use utreexo_node::codec::{compute_block_hash, compute_leaf_hash};
use utreexo_node::chain::check_pow;
use utreexo_node::hexcode::{hex_decode, hex_encode};
use utreexo_node::node::FlorestaChain;
use utreexo_node::store::{BestChain, WasmStore};
use utreexo_node::types::{
    AcceptError, Block, CompactLeafData, Header, OutPoint, ScriptPubkeyType, Transaction, TxIn,
    TxOut, WasmBlock, WireProof,
};

// the compact spelling of signet's maximum attainable target
const SIGNET_MAX_BITS: u32 = 0x1e0377ae;

// the generator point of the curve, as a valid compressed public key
const GEN_PUBKEY_HEX: &str = "0279be667ef9dcbbac55a06295ce870b07029bfcdb2dce28d959f2815b16f81798";

// headers whose hashes meet the signet maximum target, found once by
// searching the nonce space for these exact fields
fn mined_header(prev: Vec<u8>, nonce: u32) -> Header {
    let h = Header {
        version: 0x20000000,
        prev_blockhash: prev,
        merkle_root: vec![0u8; 32],
        time: 1700000000,
        bits: SIGNET_MAX_BITS,
        nonce,
    };
    assert!(check_pow(&compute_block_hash(&h), h.bits));
    h
}

fn coinbase(height_tag: u8) -> Transaction {
    Transaction {
        txid: vec![height_tag; 32],
        input: vec![
            TxIn {
                previous_output: OutPoint { txid: vec![0u8; 32], vout: u32::MAX },
                script_sig: vec![],
                witness: vec![],
            },
        ],
        output: vec![TxOut { value: 50_0000_0000, script_pubkey: vec![0x51] }],
    }
}

struct Scenario {
    chain: FlorestaChain,
    envelope: WasmBlock,
    spender_txid: Vec<u8>,
}

// a chain bootstrapped at height 10 whose accumulator holds exactly one
// leaf: an output created at height 3, spendable by the next block; the
// envelope spends it and pays `pay_script`
fn scenario(pay_script: Vec<u8>, corrupt_root: bool) -> Scenario {
    let height: u32 = 10;
    let created_block_hash = vec![0x3c; 32];
    let mut table = Vec::new();
    for i in 0u8..11 {
        if i == 3 {
            table.extend(created_block_hash.clone());
        } else {
            table.extend(vec![i; 32]);
        }
    }
    let prev_out = OutPoint { txid: vec![0x99; 32], vout: 0 };
    let leaf_script = vec![0x51, 0x53];
    let leaf = CompactLeafData {
        header_code: 3 << 1,
        amount: 1000,
        spk_ty: ScriptPubkeyType::Other(leaf_script.clone()),
    };
    let mut root = compute_leaf_hash(&created_block_hash, &prev_out, 3 << 1, 1000, &leaf_script);
    if corrupt_root {
        root[0] ^= 1;
    }
    // a placeholder tip header; the tip hash below is what links blocks
    let tip_header = mined_header(vec![7u8; 32], 2341461);
    let tip_hash = compute_block_hash(&tip_header);
    let chain = FlorestaChain::build_chain_from(
        tip_hash.clone(),
        height,
        tip_header,
        1,
        vec![root],
        table,
    )
    .unwrap();
    let spender_txid = vec![0xaa; 32];
    let spender = Transaction {
        txid: spender_txid.clone(),
        input: vec![TxIn { previous_output: prev_out, script_sig: vec![], witness: vec![] }],
        output: vec![TxOut { value: 900, script_pubkey: pay_script }],
    };
    let header = mined_header(tip_hash, 3383749);
    let block = Block { header, txdata: vec![coinbase(0xb1), spender] };
    let envelope = WasmBlock {
        block,
        proof: WireProof { targets: vec![0], hashes: vec![] },
        leaf_data: vec![leaf],
    };
    Scenario { chain, envelope, spender_txid }
}

#[test]
fn checkpoint_block_advances_height_and_roots() {
    let mut s = scenario(vec![0x52], false);
    let old_roots = s.chain.chain_state.acc_roots.clone();
    s.chain.accept_block(&s.envelope).unwrap();
    assert_eq!(s.chain.show_height(), 11);
    assert_eq!(
        s.chain.chain_state.tip_hash,
        compute_block_hash(&s.envelope.block.header)
    );
    assert_ne!(s.chain.chain_state.acc_roots, old_roots);

    // the accumulator agrees with rustreexo applied directly
    let bh = compute_block_hash(&s.envelope.block.header);
    let cb = &s.envelope.block.txdata[0];
    let hc_cb: u32 = (11 << 1) | 1;
    let add0 = compute_leaf_hash(
        &bh,
        &OutPoint { txid: cb.txid.clone(), vout: 0 },
        hc_cb,
        cb.output[0].value,
        &cb.output[0].script_pubkey,
    );
    let sp = &s.envelope.block.txdata[1];
    let add1 = compute_leaf_hash(
        &bh,
        &OutPoint { txid: sp.txid.clone(), vout: 0 },
        11 << 1,
        sp.output[0].value,
        &sp.output[0].script_pubkey,
    );
    let to_nh = |v: &Vec<u8>| {
        let mut a = [0u8; 32];
        a.copy_from_slice(v);
        rustreexo::node_hash::BitcoinNodeHash::from(a)
    };
    let del = to_nh(&old_roots[0]);
    let stump = rustreexo::stump::Stump { leaves: 1, roots: vec![del] };
    let proof = rustreexo::proof::Proof::new(vec![0], vec![]);
    let (expected, _) = stump.modify(&[to_nh(&add0), to_nh(&add1)], &[del], &proof).unwrap();
    let expected_roots: Vec<Vec<u8>> = expected
        .roots
        .iter()
        .map(|h| match h {
            rustreexo::node_hash::BitcoinNodeHash::Some(a) => a.to_vec(),
            _ => Vec::new(),
        })
        .collect();
    assert_eq!(s.chain.chain_state.acc_leaves, expected.leaves);
    assert_eq!(s.chain.chain_state.acc_roots, expected_roots);
}

#[test]
fn connect_failure_leaves_height_and_wallet_unchanged() {
    // a corrupted root makes the accumulator reject the proof; the
    // header may stay journaled but height, roots and wallet must not
    // move
    let mut s = scenario(vec![0x52], true);
    let old_roots = s.chain.chain_state.acc_roots.clone();
    let r = s.chain.accept_block(&s.envelope);
    assert_eq!(r.unwrap_err(), AcceptError::ConnectRejected);
    assert_eq!(s.chain.show_height(), 10);
    assert_eq!(s.chain.chain_state.acc_roots, old_roots);
    assert_eq!(s.chain.get_our_transactions().len(), 0);
    assert_eq!(s.chain.wallet.transaction_list.len(), 0);
    // the header of the failed block was accepted and remains known
    let bh = compute_block_hash(&s.envelope.block.header);
    assert!(s.chain.chain_state.store.get_header(&bh).unwrap().is_some());
}

#[test]
fn target_length_mismatch_rejected_and_height_kept() {
    // the proof claims no deletions while one leaf is supplied; the
    // header is accepted first, so it stays journaled
    let mut s = scenario(vec![0x52], false);
    s.envelope.proof.targets = vec![];
    let r = s.chain.accept_block(&s.envelope);
    assert_eq!(r.unwrap_err(), AcceptError::InvalidProof);
    assert_eq!(s.chain.show_height(), 10);
    let bh = compute_block_hash(&s.envelope.block.header);
    assert!(s.chain.chain_state.store.get_header(&bh).unwrap().is_some());

    // no leaf for an input that needs one
    let mut s2 = scenario(vec![0x52], false);
    s2.envelope.proof.targets = vec![];
    s2.envelope.leaf_data = vec![];
    let r2 = s2.chain.accept_block(&s2.envelope);
    assert_eq!(r2.unwrap_err(), AcceptError::ProofExhausted);
    assert_eq!(s2.chain.show_height(), 10);
}

#[test]
fn header_not_linking_is_rejected() {
    let mut s = scenario(vec![0x52], false);
    s.envelope.block.header.prev_blockhash = vec![0xee; 32];
    let r = s.chain.accept_block(&s.envelope);
    assert_eq!(r.unwrap_err(), AcceptError::HeaderRejected);
    assert_eq!(s.chain.show_height(), 10);
}

#[test]
fn bad_header_outranks_proof_shape() {
    // header acceptance comes before the proof-shape check: a block
    // that fails both reports the header rejection
    let mut s = scenario(vec![0x52], false);
    s.envelope.block.header.prev_blockhash = vec![0xee; 32];
    s.envelope.proof.targets = vec![];
    let r = s.chain.accept_block(&s.envelope);
    assert_eq!(r.unwrap_err(), AcceptError::HeaderRejected);
}

#[test]
fn checkpoint_header_is_journaled() {
    // the bootstrap header can be looked up under its own block hash
    let s = scenario(vec![0x52], false);
    let tip = s.chain.chain_state.tip_hash.clone();
    let found = s.chain.chain_state.store.get_header(&tip).unwrap().unwrap();
    assert_eq!(compute_block_hash(&found), tip);
}

#[test]
fn malformed_checkpoint_commitment_is_refused() {
    let header = mined_header(vec![7u8; 32], 2341461);
    // three leaves split into two trees, so one root is too few
    let r = FlorestaChain::build_chain_from(
        vec![0u8; 32],
        1,
        header.clone(),
        3,
        vec![vec![0xaa; 32]],
        vec![],
    );
    assert_eq!(r.unwrap_err(), AcceptError::MalformedInput);
    // a root that is neither empty nor 32 bytes is refused
    let r2 = FlorestaChain::build_chain_from(
        vec![0u8; 32],
        1,
        header.clone(),
        1,
        vec![vec![0xaa; 7]],
        vec![],
    );
    assert_eq!(r2.unwrap_err(), AcceptError::MalformedInput);
    // the matching shape is accepted
    let r3 = FlorestaChain::build_chain_from(
        vec![0u8; 32],
        1,
        header,
        3,
        vec![vec![0xaa; 32], vec![0xbb; 32]],
        vec![],
    );
    assert!(r3.is_ok());
}

#[test]
fn out_of_forest_target_is_rejected_not_fatal() {
    // a proof target naming a row the one-leaf forest does not have
    // must be rejected before the accumulator is consulted
    let mut s = scenario(vec![0x52], false);
    s.envelope.proof.targets = vec![u64::MAX];
    let r = s.chain.accept_block(&s.envelope);
    assert_eq!(r.unwrap_err(), AcceptError::ConnectRejected);
    assert_eq!(s.chain.show_height(), 10);

    let mut s2 = scenario(vec![0x52], false);
    s2.envelope.proof.targets = vec![0x8000_0000_0000_0000];
    let r2 = s2.chain.accept_block(&s2.envelope);
    assert_eq!(r2.unwrap_err(), AcceptError::ConnectRejected);
    assert_eq!(s2.chain.show_height(), 10);
}

#[test]
fn target_easier_than_signet_maximum_is_rejected() {
    // the header meets its own declared target, but that target is
    // easier than signet's maximum attainable one
    let mut s = scenario(vec![0x52], false);
    s.envelope.block.header.bits = 0x207fffff;
    let r = s.chain.accept_block(&s.envelope);
    assert_eq!(r.unwrap_err(), AcceptError::HeaderRejected);
    assert_eq!(s.chain.show_height(), 10);
}

#[test]
fn malformed_proof_hash_is_malformed_input() {
    let mut s = scenario(vec![0x52], false);
    s.envelope.proof.hashes = vec!["nothex".to_string()];
    let r = s.chain.accept_block(&s.envelope);
    assert_eq!(r.unwrap_err(), AcceptError::MalformedInput);
}

fn gen_address() -> (String, Vec<u8>) {
    let pk_bytes = hex_decode(GEN_PUBKEY_HEX).unwrap();
    let pk = bitcoin::key::CompressedPublicKey::from_slice(&pk_bytes).unwrap();
    let addr = bitcoin::Address::p2wpkh(&pk, bitcoin::Network::Signet);
    let spk = addr.script_pubkey().to_bytes();
    (addr.to_string(), spk)
}

#[test]
fn watch_is_idempotent() {
    let mut chain = FlorestaChain::new();
    let (addr, _spk) = gen_address();
    chain.add_address(&addr).unwrap();
    let once = chain.wallet.address_set.clone();
    chain.add_address(&addr).unwrap();
    assert_eq!(chain.wallet.address_set, once);
    assert_eq!(chain.wallet.address_set.len(), 1);
}

#[test]
fn invalid_address_is_rejected() {
    let mut chain = FlorestaChain::new();
    assert_eq!(
        chain.add_address("not an address").unwrap_err(),
        AcceptError::InvalidAddress
    );
    // a mainnet address is not a signet address
    assert!(chain.add_address("1A1zP1eP5QGefi2DMPTfTL5SLmv7DivfNa").is_err());
    assert_eq!(chain.wallet.address_set.len(), 0);
}

#[test]
fn watched_payment_appears_in_relevant_transactions() {
    let (addr, spk) = gen_address();
    let mut s = scenario(spk, false);
    s.chain.add_address(&addr).unwrap();
    s.chain.accept_block(&s.envelope).unwrap();
    let txs = s.chain.get_our_transactions();
    assert_eq!(txs.len(), 1);
    let mut rev = s.spender_txid.clone();
    rev.reverse();
    assert_eq!(txs[0], hex_encode(&rev));
}

#[test]
fn unwatched_block_leaves_transaction_list_unchanged() {
    let (addr, _spk) = gen_address();
    // the block pays a script nobody watches
    let mut s = scenario(vec![0x52], false);
    s.chain.add_address(&addr).unwrap();
    s.chain.accept_block(&s.envelope).unwrap();
    assert_eq!(s.chain.get_our_transactions().len(), 0);
}

#[test]
fn spend_of_watched_output_is_not_tracked() {
    // the wallet scans outputs only: a transaction spending a watched
    // output without paying one is not collected
    let (addr, spk) = gen_address();
    let mut s = scenario(vec![0x52], false);
    // make the reconstructed spent output pay the watched script: the
    // spending transaction still pays an unwatched one
    s.envelope.leaf_data[0].spk_ty = ScriptPubkeyType::Other(spk.clone());
    let prev_out = OutPoint { txid: vec![0x99; 32], vout: 0 };
    let created = vec![0x3c; 32];
    let root = compute_leaf_hash(&created, &prev_out, 3 << 1, 1000, &spk);
    s.chain.chain_state.acc_roots = vec![root];
    s.chain.add_address(&addr).unwrap();
    s.chain.accept_block(&s.envelope).unwrap();
    assert_eq!(s.chain.get_our_transactions().len(), 0);
}

#[test]
fn node_queries_report_the_tip() {
    let s = scenario(vec![0x52], false);
    assert_eq!(s.chain.show_height(), 10);
    assert!(s.chain.show_ibd());
    assert_eq!(s.chain.show_network(), "Signet");
    let tip = s.chain.return_tip();
    let mut rev = s.chain.chain_state.tip_hash.clone();
    rev.reverse();
    assert_eq!(tip, hex_encode(&rev));
    // the signet maximum target, displayed most significant byte first
    let t = s.chain.show_target();
    assert!(t.starts_with("00000377ae"));
    assert_eq!(t.len(), 64);
}

#[test]
fn toggle_ibd_leaves_download_mode() {
    let mut s = scenario(vec![0x52], false);
    assert!(s.chain.show_ibd());
    s.chain.toggle_ibd();
    assert!(!s.chain.show_ibd());
}

#[test]
fn store_round_trips() {
    let mut store = WasmStore::new();
    assert_eq!(store.load_roots().unwrap(), None);
    store.save_roots(vec![1, 2, 3]).unwrap();
    assert_eq!(store.load_roots().unwrap(), Some(vec![1, 2, 3]));

    assert_eq!(store.load_height().unwrap(), None);
    store.save_height(BestChain { hash: vec![9u8; 32], height: 77 }).unwrap();
    let best = store.load_height().unwrap().unwrap();
    assert_eq!(best.height, 77);
    assert_eq!(best.hash, vec![9u8; 32]);

    assert_eq!(store.get_block_hash(5).unwrap(), None);
    store.update_block_index(5, vec![5u8; 32]).unwrap();
    assert_eq!(store.get_block_hash(5).unwrap(), Some(vec![5u8; 32]));
    // a later write for the same height wins
    store.update_block_index(5, vec![6u8; 32]).unwrap();
    assert_eq!(store.get_block_hash(5).unwrap(), Some(vec![6u8; 32]));

    let h = Header {
        version: 1,
        prev_blockhash: vec![0u8; 32],
        merkle_root: vec![0u8; 32],
        time: 1,
        bits: SIGNET_MAX_BITS,
        nonce: 0,
    };
    assert!(store.get_header(&vec![8u8; 32]).unwrap().is_none());
    store.save_header(vec![8u8; 32], h.clone()).unwrap();
    assert_eq!(store.get_header(&vec![8u8; 32]).unwrap(), Some(h));
    store.flush().unwrap();
}
