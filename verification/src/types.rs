//! The data model: transactions, headers, blocks, compact leaf metadata,
//! accumulator proofs and the block-acceptance envelope, all over plain
//! byte vectors, with mathematical views for the contracts.

use vstd::prelude::*;
use crate::bytesutil::clone_bytes;

verus! {

/// The error taxonomy of the acceptance path.
#[derive(Clone, Copy, Debug, PartialEq, Eq, Structural)]
pub enum AcceptError {
    /// The envelope (or a hash string inside it) failed to parse.
    MalformedInput,
    /// The header does not extend the known tip or fails the basic
    /// proof-of-work check.
    HeaderRejected,
    /// An input needed a compact leaf but none remained.
    ProofExhausted,
    /// The proof did not fit the block: leaves were left over after
    /// every input was satisfied, the targets did not align with the
    /// leaves one to one, reconstruction of a spent output was
    /// inconsistent with the claimed script type, or the height-to-hash
    /// resolver had no entry.
    InvalidProof,
    /// The accumulator rejected the proof, or the update failed.
    ConnectRejected,
    /// A watch address failed to parse.
    InvalidAddress,
}

/// A reference to an output: the id of the transaction that created it
/// and the output's index within that transaction.
#[derive(Clone, Debug, PartialEq, Eq)]
pub struct OutPoint {
    pub txid: Vec<u8>,
    pub vout: u32,
}

/// Spec-level outpoint.
#[verifier::ext_equal]
pub struct OutPointV {
    pub txid: Seq<u8>,
    pub vout: u32,
}

impl View for OutPoint {
    type V = OutPointV;

    open spec fn view(&self) -> OutPointV {
        OutPointV { txid: self.txid@, vout: self.vout }
    }
}

/// A transaction output: an amount and the locking script.
#[derive(Clone, Debug, PartialEq, Eq)]
pub struct TxOut {
    pub value: u64,
    pub script_pubkey: Vec<u8>,
}

/// Spec-level output.
#[verifier::ext_equal]
pub struct TxOutV {
    pub value: u64,
    pub script_pubkey: Seq<u8>,
}

impl View for TxOut {
    type V = TxOutV;

    open spec fn view(&self) -> TxOutV {
        TxOutV { value: self.value, script_pubkey: self.script_pubkey@ }
    }
}

/// A transaction input: the outpoint it spends plus the unlocking data
/// used when a spent output is rebuilt from compact leaf metadata.
#[derive(Clone, Debug, PartialEq, Eq)]
pub struct TxIn {
    pub previous_output: OutPoint,
    pub script_sig: Vec<u8>,
    pub witness: Vec<Vec<u8>>,
}

/// Spec-level input.
#[verifier::ext_equal]
pub struct TxInV {
    pub previous_output: OutPointV,
    pub script_sig: Seq<u8>,
    pub witness: Seq<Seq<u8>>,
}

impl View for TxIn {
    type V = TxInV;

    open spec fn view(&self) -> TxInV {
        TxInV {
            previous_output: self.previous_output@,
            script_sig: self.script_sig@,
            witness: self.witness.deep_view(),
        }
    }
}

/// A transaction. `txid` is the transaction's id under the network's
/// standard encoding; the envelope layer supplies it along with the
/// decoded inputs and outputs.
#[derive(Clone, Debug, PartialEq, Eq)]
pub struct Transaction {
    pub txid: Vec<u8>,
    pub input: Vec<TxIn>,
    pub output: Vec<TxOut>,
}

/// Spec-level transaction.
#[verifier::ext_equal]
pub struct TxV {
    pub txid: Seq<u8>,
    pub input: Seq<TxInV>,
    pub output: Seq<TxOutV>,
}

impl View for Transaction {
    type V = TxV;

    open spec fn view(&self) -> TxV {
        TxV {
            txid: self.txid@,
            input: Seq::new(self.input@.len(), |i: int| self.input@[i]@),
            output: Seq::new(self.output@.len(), |i: int| self.output@[i]@),
        }
    }
}

/// A block header.
#[derive(Clone, Debug, PartialEq, Eq)]
pub struct Header {
    pub version: u32,
    pub prev_blockhash: Vec<u8>,
    pub merkle_root: Vec<u8>,
    pub time: u32,
    pub bits: u32,
    pub nonce: u32,
}

/// Spec-level header.
#[verifier::ext_equal]
pub struct HeaderV {
    pub version: u32,
    pub prev_blockhash: Seq<u8>,
    pub merkle_root: Seq<u8>,
    pub time: u32,
    pub bits: u32,
    pub nonce: u32,
}

impl View for Header {
    type V = HeaderV;

    open spec fn view(&self) -> HeaderV {
        HeaderV {
            version: self.version,
            prev_blockhash: self.prev_blockhash@,
            merkle_root: self.merkle_root@,
            time: self.time,
            bits: self.bits,
            nonce: self.nonce,
        }
    }
}

impl Header {
    /// A header is well formed when its two hash fields are 32 bytes.
    pub open spec fn wf(&self) -> bool {
        self.prev_blockhash@.len() == 32 && self.merkle_root@.len() == 32
    }
}

/// A block: a header and an ordered transaction list, the first of which
/// is the coinbase.
#[derive(Clone, Debug, PartialEq, Eq)]
pub struct Block {
    pub header: Header,
    pub txdata: Vec<Transaction>,
}

/// Spec-level block.
#[verifier::ext_equal]
pub struct BlockV {
    pub header: HeaderV,
    pub txdata: Seq<TxV>,
}

impl View for Block {
    type V = BlockV;

    open spec fn view(&self) -> BlockV {
        BlockV {
            header: self.header@,
            txdata: Seq::new(self.txdata@.len(), |i: int| self.txdata@[i]@),
        }
    }
}

/// How a spent output's locking script is rebuilt from the spending
/// input: by a standard template, or copied verbatim for `Other`.
#[derive(Clone, Debug, PartialEq, Eq)]
pub enum ScriptPubkeyType {
    /// A non-standard script, carried in full.
    Other(Vec<u8>),
    /// Pay-to-public-key-hash.
    PubKeyHash,
    /// Pay-to-witness-public-key-hash.
    WitnessV0PubKeyHash,
    /// Pay-to-script-hash.
    ScriptHash,
    /// Pay-to-witness-script-hash.
    WitnessV0ScriptHash,
}

/// Spec-level script type.
#[verifier::ext_equal]
pub enum SpkTypeV {
    Other(Seq<u8>),
    PubKeyHash,
    WitnessV0PubKeyHash,
    ScriptHash,
    WitnessV0ScriptHash,
}

impl View for ScriptPubkeyType {
    type V = SpkTypeV;

    open spec fn view(&self) -> SpkTypeV {
        match self {
            ScriptPubkeyType::Other(s) => SpkTypeV::Other(s@),
            ScriptPubkeyType::PubKeyHash => SpkTypeV::PubKeyHash,
            ScriptPubkeyType::WitnessV0PubKeyHash => SpkTypeV::WitnessV0PubKeyHash,
            ScriptPubkeyType::ScriptHash => SpkTypeV::ScriptHash,
            ScriptPubkeyType::WitnessV0ScriptHash => SpkTypeV::WitnessV0ScriptHash,
        }
    }
}

/// The minimal metadata needed to rebuild a spent output: `header_code`
/// packs the creation height (`header_code >> 1`) with a coinbase flag
/// (bit 0), `amount` is the value locked, and `spk_ty` drives the script
/// reconstruction.
#[derive(Clone, Debug, PartialEq, Eq)]
pub struct CompactLeafData {
    pub header_code: u32,
    pub amount: u64,
    pub spk_ty: ScriptPubkeyType,
}

/// Spec-level compact leaf.
#[verifier::ext_equal]
pub struct LeafV {
    pub header_code: u32,
    pub amount: u64,
    pub spk_ty: SpkTypeV,
}

impl View for CompactLeafData {
    type V = LeafV;

    open spec fn view(&self) -> LeafV {
        LeafV { header_code: self.header_code, amount: self.amount, spk_ty: self.spk_ty@ }
    }
}

/// An accumulator proof: the positions being deleted and the
/// authentication-path hashes, each 32 bytes.
#[derive(Clone, Debug, PartialEq, Eq)]
pub struct Proof {
    pub targets: Vec<u64>,
    pub hashes: Vec<Vec<u8>>,
}

/// Spec-level proof.
#[verifier::ext_equal]
pub struct ProofV {
    pub targets: Seq<u64>,
    pub hashes: Seq<Seq<u8>>,
}

impl View for Proof {
    type V = ProofV;

    open spec fn view(&self) -> ProofV {
        ProofV { targets: self.targets@, hashes: self.hashes.deep_view() }
    }
}

impl Proof {
    /// Every authentication-path hash is 32 bytes.
    pub open spec fn wf(&self) -> bool {
        forall|i: int| 0 <= i < self@.hashes.len() ==> #[trigger] self@.hashes[i].len() == 32
    }
}

/// The proof as it stands on the wire: targets as numbers, hashes as
/// hex strings.
pub struct WireProof {
    pub targets: Vec<u64>,
    pub hashes: Vec<String>,
}

/// The block-acceptance envelope: a block, its accumulator proof in wire
/// form, and the ordered compact leaves for the spent inputs.
pub struct WasmBlock {
    pub block: Block,
    pub proof: WireProof,
    pub leaf_data: Vec<CompactLeafData>,
}

/// Copies an output.
pub fn clone_txout(o: &TxOut) -> (r: TxOut)
    ensures
        r@ == o@,
{
    TxOut { value: o.value, script_pubkey: clone_bytes(&o.script_pubkey) }
}

/// Copies an input.
pub fn clone_txin(i: &TxIn) -> (r: TxIn)
    ensures
        r@ == i@,
{
    let mut witness: Vec<Vec<u8>> = Vec::new();
    let mut w: usize = 0;
    while w < i.witness.len()
        invariant
            w <= i.witness@.len(),
            witness.deep_view() == i.witness.deep_view().take(w as int),
        decreases i.witness@.len() - w,
    {
        let ghost prev = witness.deep_view();
        witness.push(clone_bytes(&i.witness[w]));
        w = w + 1;
        proof {
            assert(i.witness@[w - 1].deep_view() =~= i.witness@[w - 1]@);
            assert(witness.deep_view() =~~= prev.push(i.witness.deep_view()[w - 1]));
            assert(witness.deep_view() =~~= i.witness.deep_view().take(w as int));
        }
    }
    proof {
        assert(witness.deep_view() =~~= i.witness.deep_view());
    }
    let r = TxIn {
        previous_output: OutPoint {
            txid: clone_bytes(&i.previous_output.txid),
            vout: i.previous_output.vout,
        },
        script_sig: clone_bytes(&i.script_sig),
        witness,
    };
    proof {
        assert(r@ =~~= i@);
    }
    r
}

/// Copies a transaction.
pub fn clone_transaction(t: &Transaction) -> (r: Transaction)
    ensures
        r@ == t@,
{
    let mut input: Vec<TxIn> = Vec::new();
    let mut i: usize = 0;
    while i < t.input.len()
        invariant
            i <= t.input@.len(),
            input@.len() == i,
            forall|k: int| 0 <= k < i ==> (#[trigger] input@[k])@ == t.input@[k]@,
        decreases t.input@.len() - i,
    {
        input.push(clone_txin(&t.input[i]));
        i = i + 1;
    }
    let mut output: Vec<TxOut> = Vec::new();
    let mut j: usize = 0;
    while j < t.output.len()
        invariant
            j <= t.output@.len(),
            output@.len() == j,
            forall|k: int| 0 <= k < j ==> (#[trigger] output@[k])@ == t.output@[k]@,
        decreases t.output@.len() - j,
    {
        output.push(clone_txout(&t.output[j]));
        j = j + 1;
    }
    let r = Transaction { txid: clone_bytes(&t.txid), input, output };
    proof {
        assert(r@ =~~= t@);
    }
    r
}

} // verus!
