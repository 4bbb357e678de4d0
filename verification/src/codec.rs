//! Byte layouts the library commits to: the 80-byte header encoding,
//! the accumulator leaf commitment, the compact-leaf wire record and the
//! hex wire form of a proof, each with a proved round trip where one is
//! stated.

use vstd::prelude::*;
use crate::bytesutil::{u32_le, u64_le, compact_size, push_u32_le, push_u64_le, push_compact_size, push_bytes};
use crate::hexcode::{hex_of_bytes, bytes_of_hex, hex_encode, hex_decode, lemma_hex_round_trip};
use crate::types::{
    Header, HeaderV, OutPoint, OutPointV, Proof, WireProof, CompactLeafData, LeafV,
    ScriptPubkeyType, SpkTypeV, AcceptError,
};
use crate::digest::{sha256d, sha256d_of, sha512_256, sha512_256_of};

verus! {

/// The 80-byte network encoding of a header.
pub open spec fn header_ser(h: HeaderV) -> Seq<u8> {
    u32_le(h.version) + h.prev_blockhash + h.merkle_root + u32_le(h.time) + u32_le(h.bits)
        + u32_le(h.nonce)
}

/// A block's hash: the double-sha256 of its encoded header.
pub open spec fn block_hash_of(h: HeaderV) -> Seq<u8> {
    sha256d_of(header_ser(h))
}

/// Encodes a header in its 80-byte network layout.
pub fn serialize_header(h: &Header) -> (r: Vec<u8>)
    ensures
        r@ == header_ser(h@),
{
    let mut out: Vec<u8> = Vec::new();
    push_u32_le(&mut out, h.version);
    push_bytes(&mut out, &h.prev_blockhash);
    push_bytes(&mut out, &h.merkle_root);
    push_u32_le(&mut out, h.time);
    push_u32_le(&mut out, h.bits);
    push_u32_le(&mut out, h.nonce);
    assert(out@ =~= header_ser(h@));
    out
}

/// Computes a block's hash from its header.
pub fn compute_block_hash(h: &Header) -> (r: Vec<u8>)
    ensures
        r@ == block_hash_of(h@),
        r@.len() == 32,
{
    let ser = serialize_header(h);
    sha256d(&ser)
}

/// The byte string committed for one accumulator leaf: the hash of the
/// block that created the output, the outpoint, the packed header code,
/// the amount, and the locking script under a variable-length count, as
/// an output is spelled on the network.
pub open spec fn leaf_ser(
    block_hash: Seq<u8>,
    op: OutPointV,
    header_code: u32,
    value: u64,
    spk: Seq<u8>,
) -> Seq<u8> {
    block_hash + op.txid + u32_le(op.vout) + u32_le(header_code) + u64_le(value) + compact_size(
        spk.len() as u64,
    ) + spk
}

/// The accumulator leaf hash: sha512/256 of the leaf commitment.
pub open spec fn leaf_hash_of(
    block_hash: Seq<u8>,
    op: OutPointV,
    header_code: u32,
    value: u64,
    spk: Seq<u8>,
) -> Seq<u8> {
    sha512_256_of(leaf_ser(block_hash, op, header_code, value, spk))
}

/// Computes the accumulator leaf hash for a reconstructed output.
pub fn compute_leaf_hash(
    block_hash: &Vec<u8>,
    op: &OutPoint,
    header_code: u32,
    value: u64,
    spk: &Vec<u8>,
) -> (r: Vec<u8>)
    ensures
        r@ == leaf_hash_of(block_hash@, op@, header_code, value, spk@),
        r@.len() == 32,
{
    let mut buf: Vec<u8> = Vec::new();
    push_bytes(&mut buf, block_hash);
    push_bytes(&mut buf, &op.txid);
    push_u32_le(&mut buf, op.vout);
    push_u32_le(&mut buf, header_code);
    push_u64_le(&mut buf, value);
    push_compact_size(&mut buf, spk.len() as u64);
    push_bytes(&mut buf, spk);
    assert(buf@ =~= leaf_ser(block_hash@, op@, header_code, value, spk@));
    sha512_256(&buf)
}

/// The hex spellings of a proof's hashes.
pub open spec fn encode_hashes(hs: Seq<Seq<u8>>) -> Seq<Seq<char>> {
    Seq::new(hs.len(), |i: int| hex_of_bytes(hs[i]))
}

/// Reads hex spellings back into 32-byte hashes; `None` when one fails
/// to decode or has the wrong length.
pub open spec fn decode_hashes(hs: Seq<Seq<char>>) -> Option<Seq<Seq<u8>>>
    decreases hs.len(),
{
    if hs.len() == 0 {
        Some(Seq::empty())
    } else {
        match bytes_of_hex(hs[0]) {
            Some(b) => if b.len() == 32 {
                match decode_hashes(hs.drop_first()) {
                    Some(rest) => Some(seq![b] + rest),
                    None => None,
                }
            } else {
                None
            },
            None => None,
        }
    }
}

/// Wire round trip of the hash list: decoding the hex spellings of
/// 32-byte hashes gives the hashes back.
pub proof fn lemma_hashes_round_trip(hs: Seq<Seq<u8>>)
    requires
        forall|i: int| 0 <= i < hs.len() ==> #[trigger] hs[i].len() == 32,
    ensures
        decode_hashes(encode_hashes(hs)) == Some(hs),
    decreases hs.len(),
{
    if hs.len() == 0 {
        assert(decode_hashes(encode_hashes(hs)) == Some(hs));
    } else {
        lemma_hex_round_trip(hs[0]);
        lemma_hashes_round_trip(hs.drop_first());
        assert(encode_hashes(hs).drop_first() =~= encode_hashes(hs.drop_first()));
        assert(decode_hashes(encode_hashes(hs)).unwrap() =~= hs);
    }
}

/// Converts a proof to its wire form, targets as numbers and hashes as
/// lowercase hex strings.
pub fn proof_to_wire(p: &Proof) -> (r: WireProof)
    ensures
        r.targets@ == p@.targets,
        r.hashes.deep_view() == encode_hashes(p@.hashes),
{
    let mut targets: Vec<u64> = Vec::new();
    let mut i: usize = 0;
    while i < p.targets.len()
        invariant
            i <= p.targets@.len(),
            targets@ == p.targets@.take(i as int),
        decreases p.targets@.len() - i,
    {
        targets.push(p.targets[i]);
        i = i + 1;
        assert(targets@ =~= p.targets@.take(i as int));
    }
    assert(targets@ =~= p.targets@);
    let mut hashes: Vec<String> = Vec::new();
    let mut j: usize = 0;
    while j < p.hashes.len()
        invariant
            j <= p.hashes@.len(),
            hashes@.len() == j,
            forall|k: int| 0 <= k < j ==> #[trigger] hashes@[k]@ == hex_of_bytes(p@.hashes[k]),
        decreases p.hashes@.len() - j,
    {
        let e = hex_encode(&p.hashes[j]);
        proof {
            assert(p.hashes@[j as int].deep_view() =~= p.hashes@[j as int]@);
            assert(e@ == hex_of_bytes(p@.hashes[j as int]));
        }
        hashes.push(e);
        j = j + 1;
    }
    proof {
        assert(hashes.deep_view() =~~= encode_hashes(p@.hashes));
    }
    WireProof { targets, hashes }
}

/// Reads a proof back from its wire form; fails with `MalformedInput`
/// when a hash string is not 64 hex digits.
pub fn proof_from_wire(w: &WireProof) -> (r: Result<Proof, AcceptError>)
    ensures
        r is Ok <==> decode_hashes(w.hashes.deep_view()) is Some,
        r matches Ok(p) ==> p@.targets == w.targets@ && Some(p@.hashes) == decode_hashes(
            w.hashes.deep_view(),
        ) && p.wf(),
        r matches Err(e) ==> e == AcceptError::MalformedInput,
{
    let mut targets: Vec<u64> = Vec::new();
    let mut i: usize = 0;
    while i < w.targets.len()
        invariant
            i <= w.targets@.len(),
            targets@ == w.targets@.take(i as int),
        decreases w.targets@.len() - i,
    {
        targets.push(w.targets[i]);
        i = i + 1;
        assert(targets@ =~= w.targets@.take(i as int));
    }
    assert(targets@ =~= w.targets@);
    let ghost whs = w.hashes.deep_view();
    let mut hashes: Vec<Vec<u8>> = Vec::new();
    let mut j: usize = 0;
    proof {
        assert(whs.skip(0) =~= whs);
    }
    while j < w.hashes.len()
        invariant
            j <= w.hashes@.len(),
            whs == w.hashes.deep_view(),
            whs.len() == w.hashes@.len(),
            forall|k: int| 0 <= k < j ==> #[trigger] hashes.deep_view()[k].len() == 32,
            hashes.deep_view().len() == j,
            match decode_hashes(whs.skip(j as int)) {
                Some(rest) => decode_hashes(whs) == Some(hashes.deep_view() + rest),
                None => decode_hashes(whs) is None,
            },
        decreases w.hashes@.len() - j,
    {
        proof {
            assert(whs.skip(j as int)[0] == whs[j as int]);
            assert(whs.skip(j as int).drop_first() =~= whs.skip(j as int + 1));
            assert(w.hashes@[j as int]@ == whs[j as int]);
        }
        let b = match hex_decode(w.hashes[j].as_str()) {
            Some(b) => b,
            None => {
                return Err(AcceptError::MalformedInput);
            },
        };
        if b.len() != 32 {
            return Err(AcceptError::MalformedInput);
        }
        let ghost prev = hashes.deep_view();
        let ghost bv = b@;
        hashes.push(b);
        j = j + 1;
        proof {
            assert(hashes.deep_view() =~~= prev.push(bv));
            if decode_hashes(whs.skip(j as int)) is Some {
                let rest = decode_hashes(whs.skip(j as int)).unwrap();
                assert(prev.push(bv) + rest =~~= prev + (seq![bv] + rest));
            }
        }
    }
    proof {
        assert(whs.skip(whs.len() as int) =~= Seq::<Seq<char>>::empty());
        assert(hashes.deep_view() + Seq::<Seq<u8>>::empty() =~~= hashes.deep_view());
    }
    Ok(Proof { targets, hashes })
}

/// The wire record of a compact leaf: packed header code, amount, then
/// a tag for the script type, with non-standard scripts length-prefixed.
pub open spec fn leaf_wire(l: LeafV) -> Seq<u8> {
    u32_le(l.header_code) + u64_le(l.amount) + match l.spk_ty {
        SpkTypeV::Other(s) => seq![0u8] + u64_le(s.len() as u64) + s,
        SpkTypeV::PubKeyHash => seq![1u8],
        SpkTypeV::WitnessV0PubKeyHash => seq![2u8],
        SpkTypeV::ScriptHash => seq![3u8],
        SpkTypeV::WitnessV0ScriptHash => seq![4u8],
    }
}

/// Encodes a compact leaf into its wire record.
pub fn leaf_to_wire(l: &CompactLeafData) -> (r: Vec<u8>)
    ensures
        r@ == leaf_wire(l@),
{
    let mut out: Vec<u8> = Vec::new();
    push_u32_le(&mut out, l.header_code);
    push_u64_le(&mut out, l.amount);
    match &l.spk_ty {
        ScriptPubkeyType::Other(s) => {
            out.push(0);
            push_u64_le(&mut out, s.len() as u64);
            push_bytes(&mut out, s);
        },
        ScriptPubkeyType::PubKeyHash => {
            out.push(1);
        },
        ScriptPubkeyType::WitnessV0PubKeyHash => {
            out.push(2);
        },
        ScriptPubkeyType::ScriptHash => {
            out.push(3);
        },
        ScriptPubkeyType::WitnessV0ScriptHash => {
            out.push(4);
        },
    }
    assert(out@ =~= leaf_wire(l@));
    out
}


/// The value of a little-endian byte string, unfolded one byte.
proof fn lemma_le_step(s: Seq<u8>)
    requires
        s.len() > 0,
    ensures
        crate::bytesutil::le_to_int(s) == s[0] + 256 * crate::bytesutil::le_to_int(
            s.drop_first(),
        ),
{
}

/// The value of the four little-endian bytes of a u32.
pub proof fn lemma_le_u32(x: u32)
    ensures
        crate::bytesutil::le_to_int(u32_le(x)) == x,
{
    let s = u32_le(x);
    let c0 = (x & 0xff) as u8;
    let c1 = ((x >> 8) & 0xff) as u8;
    let c2 = ((x >> 16) & 0xff) as u8;
    let c3 = ((x >> 24) & 0xff) as u8;
    assert((((x & 0xff) as u8) as u32) == x & 0xff) by (bit_vector);
    assert(((((x >> 8) & 0xff) as u8) as u32) == (x >> 8) & 0xff) by (bit_vector);
    assert(((((x >> 16) & 0xff) as u8) as u32) == (x >> 16) & 0xff) by (bit_vector);
    assert(((((x >> 24) & 0xff) as u8) as u32) == (x >> 24) & 0xff) by (bit_vector);
    assert(s.drop_first() =~= seq![c1, c2, c3]);
    assert(seq![c1, c2, c3].drop_first() =~= seq![c2, c3]);
    assert(seq![c2, c3].drop_first() =~= seq![c3]);
    assert(seq![c3].drop_first() =~= Seq::<u8>::empty());
    lemma_le_step(s);
    lemma_le_step(seq![c1, c2, c3]);
    lemma_le_step(seq![c2, c3]);
    lemma_le_step(seq![c3]);
    assert(crate::bytesutil::le_to_int(Seq::<u8>::empty()) == 0);
    assert((x & 0xff) + 256 * ((x >> 8) & 0xff) + 65536 * ((x >> 16) & 0xff) + 16777216 * ((x
        >> 24) & 0xff) == x) by (bit_vector);
}

/// The value of the eight little-endian bytes of a u64.
pub proof fn lemma_le_u64(x: u64)
    ensures
        crate::bytesutil::le_to_int(u64_le(x)) == x,
{
    let s = u64_le(x);
    let c1 = ((x >> 8) & 0xff) as u8;
    let c2 = ((x >> 16) & 0xff) as u8;
    let c3 = ((x >> 24) & 0xff) as u8;
    let c4 = ((x >> 32) & 0xff) as u8;
    let c5 = ((x >> 40) & 0xff) as u8;
    let c6 = ((x >> 48) & 0xff) as u8;
    let c7 = ((x >> 56) & 0xff) as u8;
    assert((((x & 0xff) as u8) as u64) == x & 0xff) by (bit_vector);
    assert(((((x >> 8) & 0xff) as u8) as u64) == (x >> 8) & 0xff) by (bit_vector);
    assert(((((x >> 16) & 0xff) as u8) as u64) == (x >> 16) & 0xff) by (bit_vector);
    assert(((((x >> 24) & 0xff) as u8) as u64) == (x >> 24) & 0xff) by (bit_vector);
    assert(((((x >> 32) & 0xff) as u8) as u64) == (x >> 32) & 0xff) by (bit_vector);
    assert(((((x >> 40) & 0xff) as u8) as u64) == (x >> 40) & 0xff) by (bit_vector);
    assert(((((x >> 48) & 0xff) as u8) as u64) == (x >> 48) & 0xff) by (bit_vector);
    assert(((((x >> 56) & 0xff) as u8) as u64) == (x >> 56) & 0xff) by (bit_vector);
    assert(s.drop_first() =~= seq![c1, c2, c3, c4, c5, c6, c7]);
    assert(seq![c1, c2, c3, c4, c5, c6, c7].drop_first() =~= seq![c2, c3, c4, c5, c6, c7]);
    assert(seq![c2, c3, c4, c5, c6, c7].drop_first() =~= seq![c3, c4, c5, c6, c7]);
    assert(seq![c3, c4, c5, c6, c7].drop_first() =~= seq![c4, c5, c6, c7]);
    assert(seq![c4, c5, c6, c7].drop_first() =~= seq![c5, c6, c7]);
    assert(seq![c5, c6, c7].drop_first() =~= seq![c6, c7]);
    assert(seq![c6, c7].drop_first() =~= seq![c7]);
    assert(seq![c7].drop_first() =~= Seq::<u8>::empty());
    lemma_le_step(s);
    lemma_le_step(seq![c1, c2, c3, c4, c5, c6, c7]);
    lemma_le_step(seq![c2, c3, c4, c5, c6, c7]);
    lemma_le_step(seq![c3, c4, c5, c6, c7]);
    lemma_le_step(seq![c4, c5, c6, c7]);
    lemma_le_step(seq![c5, c6, c7]);
    lemma_le_step(seq![c6, c7]);
    lemma_le_step(seq![c7]);
    assert(crate::bytesutil::le_to_int(Seq::<u8>::empty()) == 0);
    assert((x & 0xff) + 0x100 * ((x >> 8) & 0xff) + 0x10000 * ((x >> 16) & 0xff) + 0x1000000 * ((x
        >> 24) & 0xff) + 0x100000000 * ((x >> 32) & 0xff) + 0x10000000000 * ((x >> 40) & 0xff)
        + 0x1000000000000 * ((x >> 48) & 0xff) + 0x100000000000000 * ((x >> 56) & 0xff) == x)
        by (bit_vector);
}

/// Reads a compact leaf back from its wire record; `None` when the
/// record is malformed or has bytes left over.
pub open spec fn leaf_of_wire(s: Seq<u8>) -> Option<LeafV> {
    if s.len() < 13 {
        None
    } else {
        let hc = crate::bytesutil::le_to_int(s.subrange(0, 4)) as u32;
        let amount = crate::bytesutil::le_to_int(s.subrange(4, 12)) as u64;
        let tag = s[12];
        if tag == 0 {
            if s.len() < 21 {
                None
            } else {
                let n = crate::bytesutil::le_to_int(s.subrange(13, 21));
                if s.len() == 21 + n {
                    Some(
                        LeafV { header_code: hc, amount, spk_ty: SpkTypeV::Other(s.skip(21)) },
                    )
                } else {
                    None
                }
            }
        } else if tag == 1 && s.len() == 13 {
            Some(LeafV { header_code: hc, amount, spk_ty: SpkTypeV::PubKeyHash })
        } else if tag == 2 && s.len() == 13 {
            Some(LeafV { header_code: hc, amount, spk_ty: SpkTypeV::WitnessV0PubKeyHash })
        } else if tag == 3 && s.len() == 13 {
            Some(LeafV { header_code: hc, amount, spk_ty: SpkTypeV::ScriptHash })
        } else if tag == 4 && s.len() == 13 {
            Some(LeafV { header_code: hc, amount, spk_ty: SpkTypeV::WitnessV0ScriptHash })
        } else {
            None
        }
    }
}

/// Law: decoding a compact leaf's wire record reproduces the leaf.
pub proof fn lemma_leaf_round_trip(l: LeafV)
    requires
        l.spk_ty matches SpkTypeV::Other(sc) ==> sc.len() <= u64::MAX,
    ensures
        leaf_of_wire(leaf_wire(l)) == Some(l),
{
    let w = leaf_wire(l);
    lemma_le_u32(l.header_code);
    lemma_le_u64(l.amount);
    assert(w.subrange(0, 4) =~= u32_le(l.header_code));
    assert(w.subrange(4, 12) =~= u64_le(l.amount));
    match l.spk_ty {
        SpkTypeV::Other(sc) => {
            lemma_le_u64(sc.len() as u64);
            assert(w[12] == 0);
            assert(w.subrange(13, 21) =~= u64_le(sc.len() as u64));
            assert(w.skip(21) =~= sc);
            assert(leaf_of_wire(w).unwrap().spk_ty == l.spk_ty);
        },
        SpkTypeV::PubKeyHash => {
            assert(w[12] == 1 && w.len() == 13);
        },
        SpkTypeV::WitnessV0PubKeyHash => {
            assert(w[12] == 2 && w.len() == 13);
        },
        SpkTypeV::ScriptHash => {
            assert(w[12] == 3 && w.len() == 13);
        },
        SpkTypeV::WitnessV0ScriptHash => {
            assert(w[12] == 4 && w.len() == 13);
        },
    }
}

/// Reads a u32 from four little-endian bytes.
fn read_u32_le(s: &Vec<u8>, off: usize) -> (r: u32)
    requires
        off + 4 <= s@.len(),
    ensures
        r == crate::bytesutil::le_to_int(s@.subrange(off as int, off as int + 4)) as u32,
        u32_le(r) == s@.subrange(off as int, off as int + 4),
{
    let n = s.len();
    let r = s[off] as u32 | (s[off + 1] as u32) << 8u32 | (s[off + 2] as u32) << 16u32 | (s[off
        + 3] as u32) << 24u32;
    proof {
        let b0 = s@[off as int];
        let b1 = s@[off as int + 1];
        let b2 = s@[off as int + 2];
        let b3 = s@[off as int + 3];
        assert(r == (b0 as u32) | (b1 as u32) << 8u32 | (b2 as u32) << 16u32 | (b3 as u32)
            << 24u32);
        assert((r & 0xff) == b0 && ((r >> 8) & 0xff) == b1 && ((r >> 16) & 0xff) == b2 && ((r
            >> 24) & 0xff) == b3) by (bit_vector)
            requires
                r == (b0 as u32) | (b1 as u32) << 8u32 | (b2 as u32) << 16u32 | (b3 as u32)
                    << 24u32,
        ;
        assert(u32_le(r) =~= s@.subrange(off as int, off as int + 4));
        lemma_le_u32(r);
        assert(crate::bytesutil::le_to_int(s@.subrange(off as int, off as int + 4)) == r);
    }
    r
}

/// Reads a u64 from eight little-endian bytes.
fn read_u64_le(s: &Vec<u8>, off: usize) -> (r: u64)
    requires
        off + 8 <= s@.len(),
    ensures
        r == crate::bytesutil::le_to_int(s@.subrange(off as int, off as int + 8)) as u64,
        u64_le(r) == s@.subrange(off as int, off as int + 8),
{
    let n = s.len();
    let r = s[off] as u64 | (s[off + 1] as u64) << 8u64 | (s[off + 2] as u64) << 16u64 | (s[off
        + 3] as u64) << 24u64 | (s[off + 4] as u64) << 32u64 | (s[off + 5] as u64) << 40u64 | (s[
        off + 6] as u64) << 48u64 | (s[off + 7] as u64) << 56u64;
    proof {
        let b0 = s@[off as int];
        let b1 = s@[off as int + 1];
        let b2 = s@[off as int + 2];
        let b3 = s@[off as int + 3];
        let b4 = s@[off as int + 4];
        let b5 = s@[off as int + 5];
        let b6 = s@[off as int + 6];
        let b7 = s@[off as int + 7];
        assert((r & 0xff) == b0 && ((r >> 8) & 0xff) == b1 && ((r >> 16) & 0xff) == b2 && ((r
            >> 24) & 0xff) == b3 && ((r >> 32) & 0xff) == b4 && ((r >> 40) & 0xff) == b5 && ((r
            >> 48) & 0xff) == b6 && ((r >> 56) & 0xff) == b7) by (bit_vector)
            requires
                r == (b0 as u64) | (b1 as u64) << 8u64 | (b2 as u64) << 16u64 | (b3 as u64)
                    << 24u64 | (b4 as u64) << 32u64 | (b5 as u64) << 40u64 | (b6 as u64) << 48u64
                    | (b7 as u64) << 56u64,
        ;
        assert(u64_le(r) =~= s@.subrange(off as int, off as int + 8));
        lemma_le_u64(r);
        assert(crate::bytesutil::le_to_int(s@.subrange(off as int, off as int + 8)) == r);
    }
    r
}

/// Decodes a compact leaf from its wire record.
pub fn leaf_from_wire(w: &Vec<u8>) -> (r: Option<CompactLeafData>)
    ensures
        r is Some <==> leaf_of_wire(w@) is Some,
        r matches Some(l) ==> leaf_of_wire(w@) == Some(l@),
{
    if w.len() < 13 {
        return None;
    }
    let hc = read_u32_le(w, 0);
    let amount = read_u64_le(w, 4);
    let tag = w[12];
    if tag == 0 {
        if w.len() < 21 {
            return None;
        }
        let n = read_u64_le(w, 13);
        let wlen = w.len();
        proof {
            crate::bytesutil::lemma_le_to_int_bound(w@.subrange(13, 21));
            assert(vstd::arithmetic::power::pow(256, 8) == 0x10000000000000000) by {
                reveal_with_fuel(vstd::arithmetic::power::pow, 9);
            }
            assert(crate::bytesutil::le_to_int(w@.subrange(13, 21)) == n);
        }
        if n > u64::MAX - 21 {
            proof {
                assert(w@.len() < 21 + n);
            }
            return None;
        }
        if wlen as u64 != n + 21 {
            return None;
        }
        let mut sc: Vec<u8> = Vec::new();
        let mut i: usize = 21;
        while i < w.len()
            invariant
                21 <= i <= w@.len(),
                sc@ == w@.subrange(21, i as int),
            decreases w@.len() - i,
        {
            sc.push(w[i]);
            i = i + 1;
            assert(sc@ =~= w@.subrange(21, i as int));
        }
        proof {
            assert(sc@ =~= w@.skip(21));
        }
        let l = CompactLeafData { header_code: hc, amount, spk_ty: ScriptPubkeyType::Other(sc) };
        proof {
            assert(leaf_of_wire(w@) is Some);
            assert(leaf_of_wire(w@).unwrap() =~~= l@);
        }
        Some(l)
    } else if tag == 1 && w.len() == 13 {
        let l = CompactLeafData { header_code: hc, amount, spk_ty: ScriptPubkeyType::PubKeyHash };
        proof {
            assert(leaf_of_wire(w@) is Some);
            assert(leaf_of_wire(w@).unwrap() =~~= l@);
        }
        Some(l)
    } else if tag == 2 && w.len() == 13 {
        let l = CompactLeafData { header_code: hc, amount, spk_ty: ScriptPubkeyType::WitnessV0PubKeyHash };
        proof {
            assert(leaf_of_wire(w@) is Some);
            assert(leaf_of_wire(w@).unwrap() =~~= l@);
        }
        Some(l)
    } else if tag == 3 && w.len() == 13 {
        let l = CompactLeafData { header_code: hc, amount, spk_ty: ScriptPubkeyType::ScriptHash };
        proof {
            assert(leaf_of_wire(w@) is Some);
            assert(leaf_of_wire(w@).unwrap() =~~= l@);
        }
        Some(l)
    } else if tag == 4 && w.len() == 13 {
        let l = CompactLeafData { header_code: hc, amount, spk_ty: ScriptPubkeyType::WitnessV0ScriptHash };
        proof {
            assert(leaf_of_wire(w@) is Some);
            assert(leaf_of_wire(w@).unwrap() =~~= l@);
        }
        Some(l)
    } else {
        None
    }
}

} // verus!
