use bitcoin::hashes::Hash as _;
use utreexo_node::codec::compute_leaf_hash;
use utreexo_node::procproof::{process_proof, resolve_block_hash};
use utreexo_node::script::{find_last_push, reconstruct_leaf_output};
use utreexo_node::store::WasmStore;
use utreexo_node::types::{
    AcceptError, CompactLeafData, OutPoint, ScriptPubkeyType, Transaction, TxIn, TxOut,
};

fn txid(b: u8) -> Vec<u8> {
    vec![b; 32]
}

fn coinbase() -> Transaction {
    Transaction {
        txid: txid(0xc0),
        input: vec![
            TxIn {
                previous_output: OutPoint { txid: vec![0u8; 32], vout: u32::MAX },
                script_sig: vec![],
                witness: vec![],
            },
        ],
        output: vec![TxOut { value: 50_0000_0000, script_pubkey: vec![0x51] }],
    }
}

fn spend(txid_of: u8, prev: &OutPoint, outputs: Vec<TxOut>) -> Transaction {
    Transaction {
        txid: txid(txid_of),
        input: vec![
            TxIn {
                previous_output: OutPoint { txid: prev.txid.clone(), vout: prev.vout },
                script_sig: vec![],
                witness: vec![],
            },
        ],
        output: outputs,
    }
}

fn other_leaf(height: u32, amount: u64, script: Vec<u8>) -> CompactLeafData {
    CompactLeafData {
        header_code: height << 1,
        amount,
        spk_ty: ScriptPubkeyType::Other(script),
    }
}

#[test]
fn coinbase_only_block_consumes_no_leaves() {
    let store = WasmStore::new();
    let txs = vec![coinbase()];
    let (dels, _map) = process_proof(&vec![], &txs, &store, &vec![]).unwrap();
    assert_eq!(dels.len(), 0);
}

#[test]
fn coinbase_inputs_never_consume_leaves_even_when_offered() {
    // the coinbase input spends an unknown outpoint; with a leaf on
    // offer, processing must not consume it for the coinbase, and the
    // leftover leaf is then rejected
    let store = WasmStore::new();
    let txs = vec![coinbase()];
    let leaves = vec![other_leaf(1, 10, vec![0x51])];
    let r = process_proof(&leaves, &txs, &store, &vec![0u8; 64]);
    assert_eq!(r.unwrap_err(), AcceptError::InvalidProof);
}

#[test]
fn intra_block_spend_consumes_no_leaf() {
    // tx2 spends tx1's output created in the same block: no leaf may be
    // consumed even though one is available, so the leftover leaf fails
    let store = WasmStore::new();
    let cb = coinbase();
    let tx1 = Transaction {
        txid: txid(0x01),
        input: vec![],
        output: vec![TxOut { value: 7, script_pubkey: vec![0x52] }],
    };
    let prev = OutPoint { txid: txid(0x01), vout: 0 };
    let tx2 = spend(0x02, &prev, vec![TxOut { value: 7, script_pubkey: vec![0x53] }]);
    let txs = vec![cb, tx1, tx2];
    // with no leaves at all the block processes cleanly
    let (dels, map) = process_proof(&vec![], &txs, &store, &vec![]).unwrap();
    assert_eq!(dels.len(), 0);
    assert!(map.get(&prev).is_some());
    assert_eq!(map.get(&prev).unwrap().script_pubkey, vec![0x52]);
    // with a spare leaf the walk still consumes nothing, which the
    // final alignment check reports
    let leaves = vec![other_leaf(1, 10, vec![0x51])];
    let r = process_proof(&leaves, &txs, &store, &vec![0u8; 64]);
    assert_eq!(r.unwrap_err(), AcceptError::InvalidProof);
}

#[test]
fn self_reference_within_one_transaction_needs_no_leaf() {
    // a transaction spending its own earlier output: outputs register
    // before inputs are walked
    let store = WasmStore::new();
    let own = Transaction {
        txid: txid(0x0a),
        input: vec![
            TxIn {
                previous_output: OutPoint { txid: txid(0x0a), vout: 0 },
                script_sig: vec![],
                witness: vec![],
            },
        ],
        output: vec![TxOut { value: 1, script_pubkey: vec![0x54] }],
    };
    let txs = vec![coinbase(), own];
    let (dels, _map) = process_proof(&vec![], &txs, &store, &vec![]).unwrap();
    assert_eq!(dels.len(), 0);
}

#[test]
fn external_input_consumes_leaf_and_records_deletion() {
    let mut store = WasmStore::new();
    let created = vec![0xabu8; 32];
    store.update_block_index(3, created.clone()).unwrap();
    let prev = OutPoint { txid: txid(0x11), vout: 2 };
    let spender = spend(0x02, &prev, vec![TxOut { value: 5, script_pubkey: vec![0x55] }]);
    let txs = vec![coinbase(), spender];
    let leaves = vec![other_leaf(3, 999, vec![0x51, 0x52])];
    let (dels, map) = process_proof(&leaves, &txs, &store, &vec![]).unwrap();
    assert_eq!(dels.len(), 1);
    let expected = compute_leaf_hash(&created, &prev, 3 << 1, 999, &vec![0x51, 0x52]);
    assert_eq!(dels[0], expected);
    let got = map.get(&prev).unwrap();
    assert_eq!(got.value, 999);
    assert_eq!(got.script_pubkey, vec![0x51, 0x52]);
}

#[test]
fn every_input_covered_on_success() {
    // two external inputs and one intra-block input: the map must cover
    // all of them exactly
    let mut store = WasmStore::new();
    store.update_block_index(1, vec![1u8; 32]).unwrap();
    store.update_block_index(2, vec![2u8; 32]).unwrap();
    let p1 = OutPoint { txid: txid(0x21), vout: 0 };
    let p2 = OutPoint { txid: txid(0x22), vout: 1 };
    let tx1 = spend(0x31, &p1, vec![TxOut { value: 4, script_pubkey: vec![0x56] }]);
    let intra = OutPoint { txid: txid(0x31), vout: 0 };
    let tx2 = Transaction {
        txid: txid(0x32),
        input: vec![
            TxIn { previous_output: intra.clone(), script_sig: vec![], witness: vec![] },
            TxIn { previous_output: p2.clone(), script_sig: vec![], witness: vec![] },
        ],
        output: vec![],
    };
    let txs = vec![coinbase(), tx1, tx2];
    let leaves = vec![other_leaf(1, 10, vec![0x61]), other_leaf(2, 20, vec![0x62])];
    let (dels, map) = process_proof(&leaves, &txs, &store, &vec![]).unwrap();
    assert_eq!(dels.len(), 2);
    assert!(map.get(&p1).is_some());
    assert!(map.get(&p2).is_some());
    assert!(map.get(&intra).is_some());
}

#[test]
fn missing_leaf_is_proof_exhausted() {
    let store = WasmStore::new();
    let prev = OutPoint { txid: txid(0x41), vout: 0 };
    let txs = vec![coinbase(), spend(0x42, &prev, vec![])];
    let r = process_proof(&vec![], &txs, &store, &vec![]);
    assert_eq!(r.unwrap_err(), AcceptError::ProofExhausted);
}

#[test]
fn unresolvable_height_is_invalid_proof() {
    let store = WasmStore::new();
    let prev = OutPoint { txid: txid(0x51), vout: 0 };
    let txs = vec![coinbase(), spend(0x52, &prev, vec![])];
    // height 9 is neither in the index nor inside the table
    let leaves = vec![other_leaf(9, 1, vec![])];
    let r = process_proof(&leaves, &txs, &store, &vec![0u8; 64]);
    assert_eq!(r.unwrap_err(), AcceptError::InvalidProof);
}

#[test]
fn resolver_prefers_index_and_falls_back_to_table() {
    let mut store = WasmStore::new();
    store.update_block_index(0, vec![0x0fu8; 32]).unwrap();
    let mut table = vec![0x10u8; 32];
    table.extend(vec![0x11u8; 32]);
    // height 0 sits in the index: the index wins over the table
    assert_eq!(resolve_block_hash(&store, &table, 0), Some(vec![0x0fu8; 32]));
    // height 1 is known to the table alone
    assert_eq!(resolve_block_hash(&store, &table, 1), Some(vec![0x11u8; 32]));
    // height 2 is known to neither
    assert_eq!(resolve_block_hash(&store, &table, 2), None);
}

#[test]
fn witness_shape_mismatch_is_invalid_proof() {
    let leaf = CompactLeafData {
        header_code: 2,
        amount: 1,
        spk_ty: ScriptPubkeyType::WitnessV0PubKeyHash,
    };
    let input = TxIn {
        previous_output: OutPoint { txid: txid(0x61), vout: 0 },
        script_sig: vec![],
        witness: vec![vec![1, 2, 3]],
    };
    assert_eq!(reconstruct_leaf_output(&leaf, &input).unwrap_err(), AcceptError::InvalidProof);
}

#[test]
fn p2pkh_template_reconstruction_exact() {
    let pubkey = vec![0x02u8; 33];
    let mut script_sig = vec![0x47u8];
    script_sig.extend(vec![0x30; 0x47]);
    script_sig.push(33);
    script_sig.extend(pubkey.clone());
    let leaf = CompactLeafData { header_code: 4, amount: 77, spk_ty: ScriptPubkeyType::PubKeyHash };
    let input = TxIn {
        previous_output: OutPoint { txid: txid(0x71), vout: 0 },
        script_sig,
        witness: vec![],
    };
    let out = reconstruct_leaf_output(&leaf, &input).unwrap();
    let h = bitcoin::hashes::hash160::Hash::hash(&pubkey).to_byte_array();
    let mut expected = vec![0x76, 0xa9, 0x14];
    expected.extend(h.to_vec());
    expected.extend(vec![0x88, 0xac]);
    assert_eq!(out.script_pubkey, expected);
    assert_eq!(out.value, 77);
}

#[test]
fn p2wpkh_and_p2wsh_templates() {
    let pubkey = vec![0x03u8; 33];
    let leaf = CompactLeafData {
        header_code: 4,
        amount: 5,
        spk_ty: ScriptPubkeyType::WitnessV0PubKeyHash,
    };
    let input = TxIn {
        previous_output: OutPoint { txid: txid(0x81), vout: 0 },
        script_sig: vec![],
        witness: vec![vec![0x30; 71], pubkey.clone()],
    };
    let out = reconstruct_leaf_output(&leaf, &input).unwrap();
    let mut expected = vec![0x00, 0x14];
    expected.extend(bitcoin::hashes::hash160::Hash::hash(&pubkey).to_byte_array().to_vec());
    assert_eq!(out.script_pubkey, expected);

    let wscript = vec![0x51u8, 0x52];
    let leaf2 = CompactLeafData {
        header_code: 4,
        amount: 5,
        spk_ty: ScriptPubkeyType::WitnessV0ScriptHash,
    };
    let input2 = TxIn {
        previous_output: OutPoint { txid: txid(0x82), vout: 0 },
        script_sig: vec![],
        witness: vec![vec![], wscript.clone()],
    };
    let out2 = reconstruct_leaf_output(&leaf2, &input2).unwrap();
    let mut expected2 = vec![0x00, 0x20];
    expected2.extend(bitcoin::hashes::sha256::Hash::hash(&wscript).to_byte_array().to_vec());
    assert_eq!(out2.script_pubkey, expected2);
}

#[test]
fn last_push_parsing() {
    // direct push, then an opcode: the push data wins
    assert_eq!(find_last_push(&vec![0x02, 0xaa, 0xbb, 0xac]), Some(vec![0xaa, 0xbb]));
    // two pushes: the last one wins
    assert_eq!(find_last_push(&vec![0x01, 0x11, 0x01, 0x22]), Some(vec![0x22]));
    // pushdata1
    assert_eq!(find_last_push(&vec![0x4c, 0x02, 0x33, 0x44]), Some(vec![0x33, 0x44]));
    // truncated push is a parse error
    assert_eq!(find_last_push(&vec![0x05, 0x01]), None);
    // no push at all
    assert_eq!(find_last_push(&vec![0xac]), None);
    // OP_0 pushes the empty string
    assert_eq!(find_last_push(&vec![0x00]), Some(vec![]));
}
