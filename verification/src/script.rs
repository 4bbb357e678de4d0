//! Rebuilding a spent output from compact leaf metadata and the
//! spending input. Standard script types are rebuilt by template from a
//! digest of the input's unlocking data; non-standard scripts are
//! carried verbatim in the leaf.

use vstd::prelude::*;
use crate::types::{CompactLeafData, LeafV, TxIn, TxInV, TxOut, TxOutV, ScriptPubkeyType, SpkTypeV, AcceptError};
use crate::digest::{hash160, hash160_of, sha256, sha256_of};
use crate::bytesutil::{push_bytes, clone_bytes};

verus! {

/// The data of the last push instruction of a script, scanning from
/// `s` with `best` the last push seen so far; `None` on a truncated
/// push or when no push occurs.
pub open spec fn last_push_from(s: Seq<u8>, best: Option<Seq<u8>>) -> Option<Seq<u8>>
    decreases s.len(),
{
    if s.len() == 0 {
        best
    } else {
        let op = s[0];
        if op == 0 {
            last_push_from(s.skip(1), Some(Seq::empty()))
        } else if 1 <= op <= 75 {
            if s.len() >= 1 + op {
                last_push_from(s.skip(1 + op as int), Some(s.subrange(1, 1 + op as int)))
            } else {
                None
            }
        } else if op == 76 {
            if s.len() >= 2 && s.len() >= 2 + s[1] {
                last_push_from(s.skip(2 + s[1] as int), Some(s.subrange(2, 2 + s[1] as int)))
            } else {
                None
            }
        } else if op == 77 {
            if s.len() >= 3 && s.len() >= 3 + s[1] + 256 * s[2] {
                last_push_from(
                    s.skip(3 + s[1] + 256 * s[2]),
                    Some(s.subrange(3, 3 + s[1] + 256 * s[2])),
                )
            } else {
                None
            }
        } else {
            last_push_from(s.skip(1), best)
        }
    }
}

/// The data of a script's last push instruction.
pub open spec fn last_push(s: Seq<u8>) -> Option<Seq<u8>> {
    last_push_from(s, None)
}

/// Finds the data of the last push instruction of a script.
pub fn find_last_push(s: &Vec<u8>) -> (r: Option<Vec<u8>>)
    ensures
        r is Some <==> last_push(s@) is Some,
        r matches Some(v) ==> last_push(s@) == Some(v@),
{
    let mut i: usize = 0;
    let mut best: Option<Vec<u8>> = None;
    proof {
        assert(s@.skip(0) =~= s@);
    }
    while i < s.len()
        invariant
            i <= s@.len(),
            match best {
                Some(b) => last_push_from(s@.skip(i as int), Some(b@)) == last_push(s@),
                None => last_push_from(s@.skip(i as int), None) == last_push(s@),
            },
        decreases s@.len() - i,
    {
        let op = s[i];
        proof {
            assert(s@.skip(i as int)[0] == s@[i as int]);
        }
        if op == 0 {
            proof {
                assert(s@.skip(i as int).skip(1) =~= s@.skip(i as int + 1));
            }
            let empty: Vec<u8> = Vec::new();
            assert(empty@ =~= Seq::<u8>::empty());
            best = Some(empty);
            i = i + 1;
        } else if op <= 75 {
            let n = op as usize;
            if s.len() - i < 1 + n {
                proof {
                    assert(s@.skip(i as int).len() < 1 + op);
                }
                return None;
            }
            let end: usize = i + 1 + n;
            let mut data: Vec<u8> = Vec::new();
            let mut k: usize = i + 1;
            while k < end
                invariant
                    i + 1 <= k <= end,
                    end == i + 1 + n,
                    end <= s@.len(),
                    data@ == s@.subrange(i as int + 1, k as int),
                decreases end - k,
            {
                data.push(s[k]);
                k = k + 1;
                assert(data@ =~= s@.subrange(i as int + 1, k as int));
            }
            proof {
                assert(s@.skip(i as int).skip(1 + op as int) =~= s@.skip(i as int + 1 + op as int));
                assert(s@.skip(i as int).subrange(1, 1 + op as int) =~= s@.subrange(
                    i as int + 1,
                    i as int + 1 + op as int,
                ));
            }
            best = Some(data);
            i = end;
        } else if op == 76 {
            if s.len() - i < 2 {
                proof {
                    assert(s@.skip(i as int).len() < 2);
                }
                return None;
            }
            let n = s[i + 1] as usize;
            proof {
                assert(s@.skip(i as int)[1] == s@[i as int + 1]);
            }
            if s.len() - i < 2 + n {
                return None;
            }
            let end: usize = i + 2 + n;
            let mut data: Vec<u8> = Vec::new();
            let mut k: usize = i + 2;
            while k < end
                invariant
                    i + 2 <= k <= end,
                    end == i + 2 + n,
                    end <= s@.len(),
                    data@ == s@.subrange(i as int + 2, k as int),
                decreases end - k,
            {
                data.push(s[k]);
                k = k + 1;
                assert(data@ =~= s@.subrange(i as int + 2, k as int));
            }
            proof {
                let sk = s@.skip(i as int);
                assert(sk.skip(2 + sk[1] as int) =~= s@.skip(i as int + 2 + n));
                assert(sk.subrange(2, 2 + sk[1] as int) =~= s@.subrange(
                    i as int + 2,
                    i as int + 2 + n,
                ));
            }
            best = Some(data);
            i = end;
        } else if op == 77 {
            if s.len() - i < 3 {
                proof {
                    assert(s@.skip(i as int).len() < 3);
                }
                return None;
            }
            let n = s[i + 1] as usize + 256 * (s[i + 2] as usize);
            proof {
                assert(s@.skip(i as int)[1] == s@[i as int + 1]);
                assert(s@.skip(i as int)[2] == s@[i as int + 2]);
            }
            if s.len() - i < 3 + n {
                return None;
            }
            let end: usize = i + 3 + n;
            let mut data: Vec<u8> = Vec::new();
            let mut k: usize = i + 3;
            while k < end
                invariant
                    i + 3 <= k <= end,
                    end == i + 3 + n,
                    end <= s@.len(),
                    data@ == s@.subrange(i as int + 3, k as int),
                decreases end - k,
            {
                data.push(s[k]);
                k = k + 1;
                assert(data@ =~= s@.subrange(i as int + 3, k as int));
            }
            proof {
                let sk = s@.skip(i as int);
                assert(sk.skip(3 + sk[1] + 256 * sk[2]) =~= s@.skip(i as int + 3 + n));
                assert(sk.subrange(3, 3 + sk[1] + 256 * sk[2]) =~= s@.subrange(
                    i as int + 3,
                    i as int + 3 + n,
                ));
            }
            best = Some(data);
            i = end;
        } else {
            proof {
                assert(s@.skip(i as int).skip(1) =~= s@.skip(i as int + 1));
            }
            i = i + 1;
        }
    }
    proof {
        assert(s@.skip(s@.len() as int) =~= Seq::<u8>::empty());
    }
    best
}

/// The pay-to-public-key-hash template around a 20-byte hash.
pub open spec fn p2pkh_spk(h: Seq<u8>) -> Seq<u8> {
    seq![0x76u8, 0xa9u8, 0x14u8] + h + seq![0x88u8, 0xacu8]
}

/// The pay-to-script-hash template around a 20-byte hash.
pub open spec fn p2sh_spk(h: Seq<u8>) -> Seq<u8> {
    seq![0xa9u8, 0x14u8] + h + seq![0x87u8]
}

/// The version-0 pay-to-witness-public-key-hash template.
pub open spec fn p2wpkh_spk(h: Seq<u8>) -> Seq<u8> {
    seq![0x00u8, 0x14u8] + h
}

/// The version-0 pay-to-witness-script-hash template.
pub open spec fn p2wsh_spk(h: Seq<u8>) -> Seq<u8> {
    seq![0x00u8, 0x20u8] + h
}

/// The locking script a leaf and its spending input stand for: verbatim
/// for `Other`; a hash160 of the last script push for the legacy
/// templates; a digest of the witness data for the segwit templates.
/// `None` when the unlocking data is inconsistent with the claimed type.
pub open spec fn reconstruct_spk(leaf: LeafV, input: TxInV) -> Option<Seq<u8>> {
    match leaf.spk_ty {
        SpkTypeV::Other(s) => Some(s),
        SpkTypeV::PubKeyHash => match last_push(input.script_sig) {
            Some(pk) => Some(p2pkh_spk(hash160_of(pk))),
            None => None,
        },
        SpkTypeV::ScriptHash => match last_push(input.script_sig) {
            Some(rs) => Some(p2sh_spk(hash160_of(rs))),
            None => None,
        },
        SpkTypeV::WitnessV0PubKeyHash => if input.witness.len() == 2 {
            Some(p2wpkh_spk(hash160_of(input.witness[1])))
        } else {
            None
        },
        SpkTypeV::WitnessV0ScriptHash => if input.witness.len() >= 1 {
            Some(p2wsh_spk(sha256_of(input.witness.last())))
        } else {
            None
        },
    }
}

/// The full reconstructed output: the leaf's amount under the rebuilt
/// locking script.
pub open spec fn reconstruct_output(leaf: LeafV, input: TxInV) -> Option<TxOutV> {
    match reconstruct_spk(leaf, input) {
        Some(spk) => Some(TxOutV { value: leaf.amount, script_pubkey: spk }),
        None => None,
    }
}

/// Rebuilds the output a leaf describes from its spending input; fails
/// with `InvalidProof` when the input's unlocking data does not fit the
/// claimed script type.
pub fn reconstruct_leaf_output(leaf: &CompactLeafData, input: &TxIn) -> (r: Result<
    TxOut,
    AcceptError,
>)
    ensures
        r is Ok <==> reconstruct_output(leaf@, input@) is Some,
        r matches Ok(o) ==> reconstruct_output(leaf@, input@) == Some(o@),
        r matches Err(e) ==> e == AcceptError::InvalidProof,
{
    match &leaf.spk_ty {
        ScriptPubkeyType::Other(s) => {
            let spk = clone_bytes(s);
            Ok(TxOut { value: leaf.amount, script_pubkey: spk })
        },
        ScriptPubkeyType::PubKeyHash => {
            match find_last_push(&input.script_sig) {
                Some(pk) => {
                    let h = hash160(&pk);
                    let mut spk: Vec<u8> = Vec::new();
                    spk.push(0x76);
                    spk.push(0xa9);
                    spk.push(0x14);
                    push_bytes(&mut spk, &h);
                    spk.push(0x88);
                    spk.push(0xac);
                    proof {
                        assert(spk@ =~= p2pkh_spk(hash160_of(last_push(input@.script_sig).unwrap())));
                    }
                    Ok(TxOut { value: leaf.amount, script_pubkey: spk })
                },
                None => Err(AcceptError::InvalidProof),
            }
        },
        ScriptPubkeyType::ScriptHash => {
            match find_last_push(&input.script_sig) {
                Some(rs) => {
                    let h = hash160(&rs);
                    let mut spk: Vec<u8> = Vec::new();
                    spk.push(0xa9);
                    spk.push(0x14);
                    push_bytes(&mut spk, &h);
                    spk.push(0x87);
                    proof {
                        assert(spk@ =~= p2sh_spk(hash160_of(last_push(input@.script_sig).unwrap())));
                    }
                    Ok(TxOut { value: leaf.amount, script_pubkey: spk })
                },
                None => Err(AcceptError::InvalidProof),
            }
        },
        ScriptPubkeyType::WitnessV0PubKeyHash => {
            if input.witness.len() == 2 {
                proof {
                    assert(input.witness@[1].deep_view() =~= input.witness@[1]@);
                }
                let h = hash160(&input.witness[1]);
                let mut spk: Vec<u8> = Vec::new();
                spk.push(0x00);
                spk.push(0x14);
                push_bytes(&mut spk, &h);
                proof {
                    assert(spk@ =~= p2wpkh_spk(hash160_of(input@.witness[1])));
                }
                Ok(TxOut { value: leaf.amount, script_pubkey: spk })
            } else {
                Err(AcceptError::InvalidProof)
            }
        },
        ScriptPubkeyType::WitnessV0ScriptHash => {
            if input.witness.len() >= 1 {
                let n = input.witness.len() - 1;
                proof {
                    assert(input.witness@[n as int].deep_view() =~= input.witness@[n as int]@);
                }
                let h = sha256(&input.witness[n]);
                let mut spk: Vec<u8> = Vec::new();
                spk.push(0x00);
                spk.push(0x20);
                push_bytes(&mut spk, &h);
                proof {
                    assert(spk@ =~= p2wsh_spk(sha256_of(input@.witness.last())));
                }
                Ok(TxOut { value: leaf.amount, script_pubkey: spk })
            } else {
                Err(AcceptError::InvalidProof)
            }
        },
    }
}

} // verus!
