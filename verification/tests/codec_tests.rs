use bitcoin::hashes::Hash as _;
use utreexo_node::codec::{
    compute_block_hash, compute_leaf_hash, leaf_from_wire, leaf_to_wire, proof_from_wire,
    proof_to_wire, serialize_header,
};
use utreexo_node::chain::{check_pow, target_to_bytes};
use utreexo_node::hexcode::{hex_decode, hex_encode};
use utreexo_node::types::{CompactLeafData, Header, Proof, ScriptPubkeyType, WireProof};

fn sample_header() -> Header {
    Header {
        version: 0x20000000,
        prev_blockhash: vec![1u8; 32],
        merkle_root: vec![2u8; 32],
        time: 0x5f5e100,
        bits: 0x207fffff,
        nonce: 42,
    }
}

#[test]
fn hex_encode_exact() {
    assert_eq!(hex_encode(&vec![0x00, 0xff, 0x10]), "00ff10");
    assert_eq!(hex_encode(&vec![]), "");
    assert_eq!(hex_encode(&vec![0xab, 0xcd]), "abcd");
}

#[test]
fn hex_round_trip() {
    let bytes: Vec<u8> = (0u8..=255).collect();
    let s = hex_encode(&bytes);
    assert_eq!(hex_decode(&s), Some(bytes));
}

#[test]
fn hex_decode_upper_and_errors() {
    assert_eq!(hex_decode("ABCD"), Some(vec![0xab, 0xcd]));
    assert_eq!(hex_decode("abc"), None);
    assert_eq!(hex_decode("zz"), None);
}

#[test]
fn header_serialization_exact() {
    let h = sample_header();
    let ser = serialize_header(&h);
    assert_eq!(ser.len(), 80);
    assert_eq!(&ser[0..4], &[0x00, 0x00, 0x00, 0x20]);
    assert_eq!(&ser[4..36], &[1u8; 32][..]);
    assert_eq!(&ser[36..68], &[2u8; 32][..]);
    assert_eq!(&ser[68..72], &[0x00, 0xe1, 0xf5, 0x05]);
    assert_eq!(&ser[72..76], &[0xff, 0xff, 0x7f, 0x20]);
    assert_eq!(&ser[76..80], &[42, 0, 0, 0]);
}

#[test]
fn block_hash_matches_reference_digest() {
    // the trusted sha256d wrapper must agree with the bitcoin crate
    // applied to the same 80 bytes
    let h = sample_header();
    let ser = serialize_header(&h);
    let expected = bitcoin::hashes::sha256d::Hash::hash(&ser).to_byte_array().to_vec();
    assert_eq!(compute_block_hash(&h), expected);
    assert_ne!(compute_block_hash(&h), ser[0..32].to_vec());
}

#[test]
fn leaf_hash_matches_reference_digest() {
    // the leaf commitment is the concatenation below, and the trusted
    // sha512/256 wrapper must agree with the bitcoin crate applied to it
    let block_hash = vec![7u8; 32];
    let op = utreexo_node::types::OutPoint { txid: vec![9u8; 32], vout: 2 };
    let spk = vec![0x51u8, 0x52];
    let mut commit = block_hash.clone();
    commit.extend(op.txid.clone());
    commit.extend(2u32.to_le_bytes());
    commit.extend(6u32.to_le_bytes());
    commit.extend(1000u64.to_le_bytes());
    commit.push(spk.len() as u8);
    commit.extend(spk.clone());
    let expected = bitcoin::hashes::sha512_256::Hash::hash(&commit).to_byte_array().to_vec();
    assert_eq!(compute_leaf_hash(&block_hash, &op, 6, 1000, &spk), expected);
}

#[test]
fn proof_wire_round_trip() {
    let p = Proof { targets: vec![0, 5, 9], hashes: vec![vec![0xaa; 32], vec![0x01; 32]] };
    let wire = proof_to_wire(&p);
    assert_eq!(wire.targets, vec![0, 5, 9]);
    assert_eq!(wire.hashes[0], "aa".repeat(32));
    let back = proof_from_wire(&wire).unwrap();
    assert_eq!(back, p);
}

#[test]
fn proof_wire_bad_hash_rejected() {
    let wire = WireProof { targets: vec![1], hashes: vec!["xyz".to_string()] };
    assert!(proof_from_wire(&wire).is_err());
    let short = WireProof { targets: vec![1], hashes: vec!["aabb".to_string()] };
    assert!(proof_from_wire(&short).is_err());
}

#[test]
fn leaf_wire_round_trip() {
    let leaves = vec![
        CompactLeafData { header_code: 7, amount: 1000, spk_ty: ScriptPubkeyType::PubKeyHash },
        CompactLeafData {
            header_code: 0x10,
            amount: 0,
            spk_ty: ScriptPubkeyType::WitnessV0ScriptHash,
        },
        CompactLeafData {
            header_code: u32::MAX,
            amount: u64::MAX,
            spk_ty: ScriptPubkeyType::Other(vec![0xde, 0xad, 0xbe, 0xef]),
        },
    ];
    for l in leaves {
        let w = leaf_to_wire(&l);
        assert_eq!(leaf_from_wire(&w), Some(l));
    }
}

#[test]
fn leaf_wire_exact_bytes() {
    let l = CompactLeafData { header_code: 3, amount: 500, spk_ty: ScriptPubkeyType::ScriptHash };
    let w = leaf_to_wire(&l);
    assert_eq!(w, vec![3, 0, 0, 0, 0xf4, 1, 0, 0, 0, 0, 0, 0, 3]);
    assert_eq!(leaf_from_wire(&vec![3, 0, 0, 0]), None);
    assert_eq!(leaf_from_wire(&vec![3, 0, 0, 0, 0xf4, 1, 0, 0, 0, 0, 0, 0, 9]), None);
}

#[test]
fn leaf_hash_depends_on_inputs() {
    let op = utreexo_node::types::OutPoint { txid: vec![9u8; 32], vout: 1 };
    let h1 = compute_leaf_hash(&vec![1u8; 32], &op, 6, 1000, &vec![0x51]);
    let h2 = compute_leaf_hash(&vec![1u8; 32], &op, 6, 1001, &vec![0x51]);
    assert_eq!(h1.len(), 32);
    assert_ne!(h1, h2);
}

#[test]
fn pow_accepts_signet_max_and_rejects_high_hash() {
    // bits 0x1e0377ae encode exactly signet's maximum attainable target
    let low = vec![0u8; 32];
    assert!(check_pow(&low, 0x1e0377ae));
    // a hash just above the target fails, one equal to it passes
    let mut border = vec![0u8; 32];
    border[29] = 0x03;
    border[28] = 0x77;
    border[27] = 0xae;
    assert!(check_pow(&border, 0x1e0377ae));
    border[27] = 0xaf;
    assert!(!check_pow(&border, 0x1e0377ae));
    // a zero target accepts nothing
    assert!(!check_pow(&low, 0x20000000));
    // a target easier than signet's maximum is rejected outright
    assert!(!check_pow(&low, 0x207fffff));
    assert!(!check_pow(&low, 0x1e0377af));
}

#[test]
fn target_bytes_exact() {
    let t = target_to_bytes(0x1e0377ae);
    assert_eq!(t.len(), 32);
    assert_eq!(t[29], 0x03);
    assert_eq!(t[28], 0x77);
    assert_eq!(t[27], 0xae);
    assert_eq!(&t[0..27], &[0u8; 27][..]);
    assert_eq!(&t[30..32], &[0u8; 2][..]);
}

#[test]
fn difficulty_of_signet_genesis_bits() {
    // 0x1e0377ae encodes exactly signet's maximum attainable target
    let header = Header {
        version: 0,
        prev_blockhash: vec![0u8; 32],
        merkle_root: vec![0u8; 32],
        time: 0,
        bits: 0x1e0377ae,
        nonce: 0,
    };
    let chain = utreexo_node::node::FlorestaChain::build_chain_from(
        vec![0u8; 32],
        5,
        header,
        0,
        vec![],
        vec![],
    )
    .unwrap();
    assert_eq!(chain.show_difficulty(), 1);
}
