//! Per-block reconstruction: walks a block's non-coinbase transactions,
//! registers each transaction's outputs so later (or the same)
//! transactions can spend them without a leaf, and satisfies every other
//! input from the next unused compact leaf, recording its accumulator
//! leaf hash as a deletion. The executable walk is proved equal to a
//! recursive functional model, and the stated laws are proved of that
//! model.

use vstd::prelude::*;
use crate::types::{
    CompactLeafData, LeafV, OutPoint, OutPointV, Transaction, TxInV, TxOut, TxOutV, TxV,
    AcceptError,
};
use crate::script::{reconstruct_output, reconstruct_leaf_output};
use crate::codec::{leaf_hash_of, compute_leaf_hash};
use crate::store::{WasmStore, index_lookup};
use crate::bytesutil::{bytes_eq, clone_bytes};

verus! {

/// The view of a transaction list.
pub open spec fn txs_view(s: Seq<Transaction>) -> Seq<TxV> {
    Seq::new(s.len(), |i: int| s[i]@)
}

/// The view of a leaf list.
pub open spec fn leaves_view(s: Seq<CompactLeafData>) -> Seq<LeafV> {
    Seq::new(s.len(), |i: int| s[i]@)
}

/// The previous-output map: outpoints of outputs created in this block
/// or rebuilt from leaves, each with its full output. Writes append to
/// a journal; the map it stands for takes the latest entry per key.
#[derive(Debug)]
pub struct PrevOutMap {
    pub entries: Vec<(OutPoint, TxOut)>,
}

/// The map a journal of entries stands for.
pub open spec fn pm_view(s: Seq<(OutPoint, TxOut)>) -> Map<OutPointV, TxOutV>
    decreases s.len(),
{
    if s.len() == 0 {
        Map::empty()
    } else {
        pm_view(s.drop_last()).insert(s.last().0@, s.last().1@)
    }
}

impl View for PrevOutMap {
    type V = Map<OutPointV, TxOutV>;

    open spec fn view(&self) -> Map<OutPointV, TxOutV> {
        pm_view(self.entries@)
    }
}

/// Exact equality of two outpoints.
pub fn outpoint_eq(a: &OutPoint, b: &OutPoint) -> (r: bool)
    ensures
        r == (a@ == b@),
{
    if a.vout == b.vout && bytes_eq(&a.txid, &b.txid) {
        proof {
            assert(a@ =~= b@);
        }
        true
    } else {
        false
    }
}

impl PrevOutMap {
    /// An empty map.
    pub fn new() -> (r: PrevOutMap)
        ensures
            r@ == Map::<OutPointV, TxOutV>::empty(),
    {
        let m = PrevOutMap { entries: Vec::new() };
        proof {
            assert(m@ =~= Map::<OutPointV, TxOutV>::empty());
        }
        m
    }

    /// Binds an outpoint to an output, replacing any earlier binding.
    pub fn insert(&mut self, k: OutPoint, v: TxOut)
        ensures
            final(self)@ == old(self)@.insert(k@, v@),
    {
        let ghost kv = k@;
        let ghost vv = v@;
        self.entries.push((k, v));
        proof {
            assert(self.entries@.drop_last() =~= old(self).entries@);
            assert(self.entries@.last().0@ == kv && self.entries@.last().1@ == vv);
        }
    }

    /// Whether an outpoint is bound.
    pub fn contains(&self, k: &OutPoint) -> (r: bool)
        ensures
            r == self@.contains_key(k@),
    {
        let mut j: usize = self.entries.len();
        proof {
            assert(self.entries@.take(j as int) =~= self.entries@);
        }
        while j > 0
            invariant
                j <= self.entries@.len(),
                self@.contains_key(k@) == pm_view(self.entries@.take(j as int)).contains_key(k@),
            decreases j,
        {
            j = j - 1;
            proof {
                assert(self.entries@.take(j as int + 1).drop_last() =~= self.entries@.take(
                    j as int,
                ));
                assert(self.entries@.take(j as int + 1).last() == self.entries@[j as int]);
            }
            if outpoint_eq(&self.entries[j].0, k) {
                return true;
            }
        }
        proof {
            assert(self.entries@.take(0) =~= Seq::<(OutPoint, TxOut)>::empty());
        }
        false
    }

    /// The output bound to an outpoint, if any.
    pub fn get(&self, k: &OutPoint) -> (r: Option<TxOut>)
        ensures
            r is Some <==> self@.contains_key(k@),
            r matches Some(v) ==> self@[k@] == v@,
    {
        let mut j: usize = self.entries.len();
        proof {
            assert(self.entries@.take(j as int) =~= self.entries@);
        }
        while j > 0
            invariant
                j <= self.entries@.len(),
                self@.contains_key(k@) == pm_view(self.entries@.take(j as int)).contains_key(k@),
                self@.contains_key(k@) ==> pm_view(self.entries@.take(j as int)).contains_key(k@)
                    && self@[k@] == pm_view(self.entries@.take(j as int))[k@],
            decreases j,
        {
            j = j - 1;
            proof {
                assert(self.entries@.take(j as int + 1).drop_last() =~= self.entries@.take(
                    j as int,
                ));
                assert(self.entries@.take(j as int + 1).last() == self.entries@[j as int]);
            }
            if outpoint_eq(&self.entries[j].0, k) {
                let v = &self.entries[j].1;
                return Some(TxOut { value: v.value, script_pubkey: clone_bytes(&v.script_pubkey) });
            }
        }
        proof {
            assert(self.entries@.take(0) =~= Seq::<(OutPoint, TxOut)>::empty());
        }
        None
    }
}

/// The block hash for a creation height: the block index wins when it
/// has an entry; below that, the flat checkpoint table of concatenated
/// 32-byte hashes; `None` when neither knows the height.
pub open spec fn resolve_hash(index: Seq<(u32, Seq<u8>)>, table: Seq<u8>, height: u32) -> Option<
    Seq<u8>,
> {
    match index_lookup(index, height) {
        Some(h) => Some(h),
        None => if 32 * (height + 1) <= table.len() {
            Some(table.subrange(32 * height, 32 * height + 32))
        } else {
            None
        },
    }
}

/// Resolves a creation height to its block hash.
pub fn resolve_block_hash(store: &WasmStore, table: &Vec<u8>, height: u32) -> (r: Option<Vec<u8>>)
    ensures
        r is Some <==> resolve_hash(store.index_v(), table@, height) is Some,
        r matches Some(v) ==> resolve_hash(store.index_v(), table@, height) == Some(v@),
{
    match store.get_block_hash(height) {
        Ok(Some(h)) => Some(h),
        Ok(None) => {
            let need: u64 = 32 * (height as u64 + 1);
            if need <= table.len() as u64 {
                let off: usize = 32 * (height as usize);
                let mut out: Vec<u8> = Vec::new();
                let mut i: usize = 0;
                while i < 32
                    invariant
                        i <= 32,
                        off == 32 * (height as int),
                        off + 32 <= table@.len(),
                        out@ == table@.subrange(off as int, off as int + i as int),
                    decreases 32 - i,
                {
                    out.push(table[off + i]);
                    i = i + 1;
                    assert(out@ =~= table@.subrange(off as int, off as int + i as int));
                }
                Some(out)
            } else {
                None
            }
        },
        Err(_) => None,
    }
}

/// The state the walk threads along: the previous-output map, the
/// deletion hashes in input order, and how many leaves are consumed.
#[verifier::ext_equal]
pub struct PState {
    pub map: Map<OutPointV, TxOutV>,
    pub dels: Seq<Seq<u8>>,
    pub used: int,
}

/// Registers a transaction's outputs, keyed by its id and their index.
pub open spec fn with_outputs(
    m: Map<OutPointV, TxOutV>,
    txid: Seq<u8>,
    outs: Seq<TxOutV>,
    k: int,
) -> Map<OutPointV, TxOutV>
    decreases outs.len() - k,
{
    if k < 0 || k >= outs.len() {
        m
    } else {
        with_outputs(m.insert(OutPointV { txid, vout: k as u32 }, outs[k]), txid, outs, k + 1)
    }
}

/// Walks one transaction's inputs: an input whose outpoint is already
/// mapped is an intra-block spend and consumes nothing; any other input
/// consumes the next leaf, whose creation height must resolve to a block
/// hash and whose script type must fit the input.
pub open spec fn process_inputs(
    m: Map<OutPointV, TxOutV>,
    dels: Seq<Seq<u8>>,
    leaves: Seq<LeafV>,
    used: int,
    inputs: Seq<TxInV>,
    index: Seq<(u32, Seq<u8>)>,
    table: Seq<u8>,
) -> Result<PState, AcceptError>
    decreases inputs.len(),
{
    if inputs.len() == 0 {
        Ok(PState { map: m, dels, used })
    } else {
        let inp = inputs[0];
        if m.contains_key(inp.previous_output) {
            process_inputs(m, dels, leaves, used, inputs.drop_first(), index, table)
        } else if used >= leaves.len() {
            Err(AcceptError::ProofExhausted)
        } else {
            let leaf = leaves[used];
            let height = leaf.header_code >> 1;
            match resolve_hash(index, table, height) {
                None => Err(AcceptError::InvalidProof),
                Some(bh) => match reconstruct_output(leaf, inp) {
                    None => Err(AcceptError::InvalidProof),
                    Some(txo) => process_inputs(
                        m.insert(inp.previous_output, txo),
                        dels.push(
                            leaf_hash_of(
                                bh,
                                inp.previous_output,
                                leaf.header_code,
                                leaf.amount,
                                txo.script_pubkey,
                            ),
                        ),
                        leaves,
                        used + 1,
                        inputs.drop_first(),
                        index,
                        table,
                    ),
                },
            }
        }
    }
}

/// Walks the non-coinbase transactions in order: outputs first, then
/// inputs, so a transaction can spend its own outputs.
pub open spec fn process_txs(
    m: Map<OutPointV, TxOutV>,
    dels: Seq<Seq<u8>>,
    leaves: Seq<LeafV>,
    used: int,
    txs: Seq<TxV>,
    index: Seq<(u32, Seq<u8>)>,
    table: Seq<u8>,
) -> Result<PState, AcceptError>
    decreases txs.len(),
{
    if txs.len() == 0 {
        Ok(PState { map: m, dels, used })
    } else {
        let tx = txs[0];
        let m1 = with_outputs(m, tx.txid, tx.output, 0);
        match process_inputs(m1, dels, leaves, used, tx.input, index, table) {
            Err(e) => Err(e),
            Ok(st) => process_txs(st.map, st.dels, leaves, st.used, txs.drop_first(), index, table),
        }
    }
}

/// The whole walk: the first transaction (the coinbase) is skipped
/// unconditionally, and every leaf must be consumed by the end.
pub open spec fn process_model(
    leaves: Seq<LeafV>,
    txs: Seq<TxV>,
    index: Seq<(u32, Seq<u8>)>,
    table: Seq<u8>,
) -> Result<PState, AcceptError> {
    let start = PState { map: Map::empty(), dels: Seq::empty(), used: 0 };
    let walked = if txs.len() == 0 {
        Ok(start)
    } else {
        process_txs(start.map, start.dels, leaves, 0, txs.skip(1), index, table)
    };
    match walked {
        Ok(st) => if st.used == leaves.len() {
            Ok(st)
        } else {
            Err(AcceptError::InvalidProof)
        },
        Err(e) => Err(e),
    }
}

/// Reconstructs the previous-output map and the deletion hashes for one
/// block's spends; the executable mirror of `process_model`.
pub fn process_proof(
    leaves: &Vec<CompactLeafData>,
    transactions: &Vec<Transaction>,
    store: &WasmStore,
    table: &Vec<u8>,
) -> (r: Result<(Vec<Vec<u8>>, PrevOutMap), AcceptError>)
    requires
        forall|i: int| 0 <= i < transactions@.len() ==> (#[trigger] transactions@[i]@).output.len()
            <= u32::MAX,
    ensures
        r is Ok <==> process_model(
            leaves_view(leaves@),
            txs_view(transactions@),
            store.index_v(),
            table@,
        ) is Ok,
        r matches Ok(p) ==> {
            let st = process_model(
                leaves_view(leaves@),
                txs_view(transactions@),
                store.index_v(),
                table@,
            ).unwrap();
            p.0.deep_view() == st.dels && p.1@ == st.map && st.used == leaves@.len()
        },
        r matches Err(e) ==> process_model(
            leaves_view(leaves@),
            txs_view(transactions@),
            store.index_v(),
            table@,
        ) == Err::<PState, AcceptError>(e),
{
    let ghost lv = leaves_view(leaves@);
    let ghost tv = txs_view(transactions@);
    let ghost idx = store.index_v();
    let ghost tbl = table@;
    let mut map = PrevOutMap::new();
    let mut dels: Vec<Vec<u8>> = Vec::new();
    let mut used: usize = 0;
    let ghost goal: Result<PState, AcceptError> = if tv.len() == 0 {
        Ok(PState { map: Map::empty(), dels: Seq::empty(), used: 0 })
    } else {
        process_txs(Map::empty(), Seq::empty(), lv, 0, tv.skip(1), idx, tbl)
    };
    let mut i: usize = 1;
    proof {
        assert(dels.deep_view() =~= Seq::<Seq<u8>>::empty());
        if tv.len() > 0 {
            assert(tv.skip(1) =~= tv.skip(1));
        }
    }
    if transactions.len() == 0 {
        if leaves.len() == 0 {
            proof {
                assert(map@ =~= Map::<OutPointV, TxOutV>::empty());
            }
            return Ok((dels, map));
        } else {
            return Err(AcceptError::InvalidProof);
        }
    }
    while i < transactions.len()
        invariant
            1 <= i <= transactions@.len(),
            transactions@.len() == tv.len(),
            tv == txs_view(transactions@),
            lv == leaves_view(leaves@),
            idx == store.index_v(),
            tbl == table@,
            leaves@.len() == lv.len(),
            used <= leaves@.len(),
            forall|k: int| 0 <= k < transactions@.len() ==> (
            #[trigger] transactions@[k]@).output.len() <= u32::MAX,
            goal == process_txs(map@, dels.deep_view(), lv, used as int, tv.skip(i as int), idx, tbl),
            tv.len() > 0,
            goal == process_txs(Map::empty(), Seq::empty(), lv, 0, tv.skip(1), idx, tbl),
        decreases transactions@.len() - i,
    {
        let tx = &transactions[i];
        let ghost txv = tv[i as int];
        let ghost m0 = map@;
        let ghost d0 = dels.deep_view();
        let ghost u0 = used as int;
        proof {
            assert(tv.skip(i as int)[0] == tv[i as int]);
            assert(tv.skip(i as int).drop_first() =~= tv.skip(i as int + 1));
            assert(goal == process_txs(m0, d0, lv, u0, tv.skip(i as int), idx, tbl));
        }
        // register this transaction's outputs
        let ghost m_entry = map@;
        let mut k: usize = 0;
        while k < tx.output.len()
            invariant
                k <= tx.output@.len(),
                txv == tv[i as int],
                txv.output.len() == tx.output@.len(),
                txv.output.len() <= u32::MAX,
                txv.txid == tx.txid@,
                forall|j: int| 0 <= j < txv.output.len() ==> txv.output[j] == #[trigger] tx.output@[j]@,
                with_outputs(m_entry, txv.txid, txv.output, 0) == with_outputs(
                    map@,
                    txv.txid,
                    txv.output,
                    k as int,
                ),
            decreases tx.output@.len() - k,
        {
            let op = OutPoint { txid: clone_bytes(&tx.txid), vout: k as u32 };
            let out = &tx.output[k];
            let txo = TxOut { value: out.value, script_pubkey: clone_bytes(&out.script_pubkey) };
            proof {
                assert(op@ =~= OutPointV { txid: txv.txid, vout: k as u32 });
                assert(tx.output@[k as int]@ == txv.output[k as int]);
                assert(txo@ =~= txv.output[k as int]);
            }
            map.insert(op, txo);
            k = k + 1;
        }
        // walk this transaction's inputs
        let ghost in_goal = process_inputs(map@, dels.deep_view(), lv, used as int, txv.input, idx, tbl);
        proof {
            assert(with_outputs(m_entry, txv.txid, txv.output, 0) == map@);
            assert(in_goal == process_inputs(
                with_outputs(m0, txv.txid, txv.output, 0), d0, lv, u0, txv.input, idx, tbl,
            ));
            assert(goal == (match process_inputs(
                with_outputs(m0, txv.txid, txv.output, 0), d0, lv, u0, txv.input, idx, tbl,
            ) {
                Err(e) => Err::<PState, AcceptError>(e),
                Ok(st) => process_txs(st.map, st.dels, lv, st.used, tv.skip(i as int + 1), idx, tbl),
            }));
        }
        let mut j: usize = 0;
        proof {
            assert(txv.input.skip(0) =~= txv.input);
        }
        while j < tx.input.len()
            invariant
                j <= tx.input@.len(),
                txv.input.len() == tx.input@.len(),
                forall|q: int| 0 <= q < txv.input.len() ==> txv.input[q] == #[trigger] tx.input@[q]@,
                lv == leaves_view(leaves@),
                idx == store.index_v(),
                tbl == table@,
                leaves@.len() == lv.len(),
                used <= leaves@.len(),
                in_goal == process_inputs(
                    map@,
                    dels.deep_view(),
                    lv,
                    used as int,
                    txv.input.skip(j as int),
                    idx,
                    tbl,
                ),
                goal == (match in_goal {
                    Err(e) => Err::<PState, AcceptError>(e),
                    Ok(st) => process_txs(
                        st.map,
                        st.dels,
                        lv,
                        st.used,
                        tv.skip(i as int + 1),
                        idx,
                        tbl,
                    ),
                }),
                tv == txs_view(transactions@),
                tv.len() > 0,
                goal == process_txs(Map::empty(), Seq::empty(), lv, 0, tv.skip(1), idx, tbl),
            decreases tx.input@.len() - j,
        {
            let inp = &tx.input[j];
            let ghost inpv = txv.input[j as int];
            proof {
                assert(txv.input.skip(j as int)[0] == inpv);
                assert(txv.input.skip(j as int).drop_first() =~= txv.input.skip(j as int + 1));
                assert(tx.input@[j as int]@ == inpv);
                assert(inp.previous_output@ == inpv.previous_output);
            }
            if map.contains(&inp.previous_output) {
                j = j + 1;
                continue;
            }
            if used >= leaves.len() {
                proof {
                    assert(in_goal == Err::<PState, AcceptError>(AcceptError::ProofExhausted));
                    assert(goal == Err::<PState, AcceptError>(AcceptError::ProofExhausted));
                }
                return Err(AcceptError::ProofExhausted);
            }
            let leaf = &leaves[used];
            let ghost leafv = lv[used as int];
            proof {
                assert(leafv == leaf@);
            }
            let height = leaf.header_code >> 1;
            let bh = match resolve_block_hash(store, table, height) {
                Some(bh) => bh,
                None => {
                    proof {
                        assert(in_goal == Err::<PState, AcceptError>(AcceptError::InvalidProof));
                        assert(goal == Err::<PState, AcceptError>(AcceptError::InvalidProof));
                    }
                    return Err(AcceptError::InvalidProof);
                },
            };
            let txo = match reconstruct_leaf_output(leaf, inp) {
                Ok(t) => t,
                Err(_) => {
                    proof {
                        assert(in_goal == Err::<PState, AcceptError>(AcceptError::InvalidProof));
                        assert(goal == Err::<PState, AcceptError>(AcceptError::InvalidProof));
                    }
                    return Err(AcceptError::InvalidProof);
                },
            };
            let lh = compute_leaf_hash(
                &bh,
                &inp.previous_output,
                leaf.header_code,
                leaf.amount,
                &txo.script_pubkey,
            );
            let ghost prev_dels = dels.deep_view();
            dels.push(lh);
            proof {
                assert(dels.deep_view() =~~= prev_dels.push(
                    leaf_hash_of(
                        bh@,
                        inpv.previous_output,
                        leafv.header_code,
                        leafv.amount,
                        txo@.script_pubkey,
                    ),
                ));
            }
            let op = OutPoint { txid: clone_bytes(&inp.previous_output.txid), vout: inp.previous_output.vout };
            proof {
                assert(op@ =~= inpv.previous_output);
            }
            map.insert(op, txo);
            used = used + 1;
            j = j + 1;
        }
        proof {
            assert(txv.input.skip(txv.input.len() as int) =~= Seq::<TxInV>::empty());
            assert(in_goal == Ok::<PState, AcceptError>(
                PState { map: map@, dels: dels.deep_view(), used: used as int },
            ));
            assert(goal == process_txs(
                map@, dels.deep_view(), lv, used as int, tv.skip(i as int + 1), idx, tbl,
            ));
        }
        i = i + 1;
    }
    proof {
        assert(tv.skip(tv.len() as int) =~= Seq::<TxV>::empty());
        assert(goal == Ok::<PState, AcceptError>(
            PState { map: map@, dels: dels.deep_view(), used: used as int },
        ));
    }
    if used != leaves.len() {
        return Err(AcceptError::InvalidProof);
    }
    Ok((dels, map))
}

/// Domain growth: registering outputs never removes a binding.
pub proof fn lemma_with_outputs_mono(
    m: Map<OutPointV, TxOutV>,
    txid: Seq<u8>,
    outs: Seq<TxOutV>,
    k: int,
)
    ensures
        forall|key: OutPointV| #[trigger]
            m.contains_key(key) ==> with_outputs(m, txid, outs, k).contains_key(key),
    decreases outs.len() - k,
{
    if 0 <= k < outs.len() {
        let m1 = m.insert(OutPointV { txid, vout: k as u32 }, outs[k]);
        lemma_with_outputs_mono(m1, txid, outs, k + 1);
        assert forall|key: OutPointV| #[trigger]
            m.contains_key(key) implies with_outputs(m, txid, outs, k).contains_key(key) by {
            assert(m1.contains_key(key));
            assert(with_outputs(m1, txid, outs, k + 1).contains_key(key));
        }
    }
}

/// Registering outputs binds every outpoint of the transaction.
pub proof fn lemma_with_outputs_contains(
    m: Map<OutPointV, TxOutV>,
    txid: Seq<u8>,
    outs: Seq<TxOutV>,
    k: int,
)
    requires
        0 <= k,
    ensures
        forall|b: int|
            k <= b < outs.len() ==> #[trigger] with_outputs(m, txid, outs, k).contains_key(
                OutPointV { txid, vout: b as u32 },
            ),
    decreases outs.len() - k,
{
    if 0 <= k < outs.len() {
        let m1 = m.insert(OutPointV { txid, vout: k as u32 }, outs[k]);
        lemma_with_outputs_contains(m1, txid, outs, k + 1);
        lemma_with_outputs_mono(m1, txid, outs, k + 1);
        assert forall|b: int|
            k <= b < outs.len() implies #[trigger] with_outputs(m, txid, outs, k).contains_key(
            OutPointV { txid, vout: b as u32 },
        ) by {
            if b == k {
                assert(m1.contains_key(OutPointV { txid, vout: k as u32 }));
                assert(with_outputs(m1, txid, outs, k + 1).contains_key(
                    OutPointV { txid, vout: k as u32 },
                ));
            } else {
                assert(with_outputs(m1, txid, outs, k + 1).contains_key(
                    OutPointV { txid, vout: b as u32 },
                ));
            }
        }
    }
}

/// A successful input walk keeps every existing binding and binds the
/// outpoint of every input it walked.
pub proof fn lemma_inputs_mono_covers(
    m: Map<OutPointV, TxOutV>,
    dels: Seq<Seq<u8>>,
    leaves: Seq<LeafV>,
    used: int,
    inputs: Seq<TxInV>,
    index: Seq<(u32, Seq<u8>)>,
    table: Seq<u8>,
)
    requires
        process_inputs(m, dels, leaves, used, inputs, index, table) is Ok,
    ensures
        ({
            let st = process_inputs(m, dels, leaves, used, inputs, index, table).unwrap();
            &&& forall|key: OutPointV| #[trigger]
                m.contains_key(key) ==> st.map.contains_key(key)
            &&& forall|j: int|
                0 <= j < inputs.len() ==> st.map.contains_key(
                    (#[trigger] inputs[j]).previous_output,
                )
        }),
    decreases inputs.len(),
{
    if inputs.len() == 0 {
    } else {
        let st = process_inputs(m, dels, leaves, used, inputs, index, table).unwrap();
        let inp = inputs[0];
        if m.contains_key(inp.previous_output) {
            lemma_inputs_mono_covers(m, dels, leaves, used, inputs.drop_first(), index, table);
            assert forall|j: int| 0 <= j < inputs.len() implies st.map.contains_key(
                (#[trigger] inputs[j]).previous_output,
            ) by {
                if j > 0 {
                    assert(inputs.drop_first()[j - 1] == inputs[j]);
                } else {
                    assert(m.contains_key(inputs[0].previous_output));
                }
            }
        } else {
            let leaf = leaves[used];
            let height = leaf.header_code >> 1;
            let bh = resolve_hash(index, table, height).unwrap();
            let txo = reconstruct_output(leaf, inp).unwrap();
            let m1 = m.insert(inp.previous_output, txo);
            let d1 = dels.push(
                leaf_hash_of(bh, inp.previous_output, leaf.header_code, leaf.amount,
                    txo.script_pubkey),
            );
            lemma_inputs_mono_covers(m1, d1, leaves, used + 1, inputs.drop_first(), index, table);
            assert forall|j: int| 0 <= j < inputs.len() implies st.map.contains_key(
                (#[trigger] inputs[j]).previous_output,
            ) by {
                if j > 0 {
                    assert(inputs.drop_first()[j - 1] == inputs[j]);
                } else {
                    assert(m1.contains_key(inp.previous_output));
                }
            }
            assert forall|key: OutPointV| #[trigger]
                m.contains_key(key) implies st.map.contains_key(key) by {
                assert(m1.contains_key(key));
            }
        }
    }
}

/// A successful walk over a transaction list keeps every existing
/// binding and binds the outpoint spent by every input of every
/// transaction walked.
pub proof fn lemma_txs_mono_covers(
    m: Map<OutPointV, TxOutV>,
    dels: Seq<Seq<u8>>,
    leaves: Seq<LeafV>,
    used: int,
    txs: Seq<TxV>,
    index: Seq<(u32, Seq<u8>)>,
    table: Seq<u8>,
)
    requires
        process_txs(m, dels, leaves, used, txs, index, table) is Ok,
    ensures
        ({
            let st = process_txs(m, dels, leaves, used, txs, index, table).unwrap();
            &&& forall|key: OutPointV| #[trigger]
                m.contains_key(key) ==> st.map.contains_key(key)
            &&& forall|i: int, j: int|
                0 <= i < txs.len() && 0 <= j < txs[i].input.len() ==> st.map.contains_key(
                    #[trigger] txs[i].input[j].previous_output,
                )
        }),
    decreases txs.len(),
{
    if txs.len() == 0 {
    } else {
        let st = process_txs(m, dels, leaves, used, txs, index, table).unwrap();
        let tx = txs[0];
        let m1 = with_outputs(m, tx.txid, tx.output, 0);
        let st1 = process_inputs(m1, dels, leaves, used, tx.input, index, table).unwrap();
        lemma_with_outputs_mono(m, tx.txid, tx.output, 0);
        lemma_inputs_mono_covers(m1, dels, leaves, used, tx.input, index, table);
        lemma_txs_mono_covers(
            st1.map,
            st1.dels,
            leaves,
            st1.used,
            txs.drop_first(),
            index,
            table,
        );
        assert forall|i: int, j: int|
            0 <= i < txs.len() && 0 <= j < txs[i].input.len() implies st.map.contains_key(
            #[trigger] txs[i].input[j].previous_output,
        ) by {
            if i == 0 {
                assert(st1.map.contains_key(tx.input[j].previous_output));
            } else {
                assert(txs.drop_first()[i - 1] == txs[i]);
            }
        }
    }
}

/// Law: whenever the walk succeeds, the previous-output map binds the
/// outpoint spent by every input of every non-coinbase transaction.
pub proof fn lemma_process_covers_every_input(
    leaves: Seq<LeafV>,
    txs: Seq<TxV>,
    index: Seq<(u32, Seq<u8>)>,
    table: Seq<u8>,
)
    requires
        process_model(leaves, txs, index, table) is Ok,
    ensures
        forall|i: int, j: int|
            1 <= i < txs.len() && 0 <= j < txs[i].input.len() ==> process_model(
                leaves,
                txs,
                index,
                table,
            ).unwrap().map.contains_key(#[trigger] txs[i].input[j].previous_output),
{
    if txs.len() > 0 {
        lemma_txs_mono_covers(
            Map::empty(),
            Seq::empty(),
            leaves,
            0,
            txs.skip(1),
            index,
            table,
        );
        assert forall|i: int, j: int|
            1 <= i < txs.len() && 0 <= j < txs[i].input.len() implies process_model(
            leaves,
            txs,
            index,
            table,
        ).unwrap().map.contains_key(#[trigger] txs[i].input[j].previous_output) by {
            assert(txs.skip(1)[i - 1] == txs[i]);
        }
    }
}

/// Law: the coinbase transaction's inputs are never consulted. The walk
/// is a function of the transactions after the first alone; a block
/// whose only transaction is the coinbase processes with no leaf
/// consumed and nothing reconstructed.
pub proof fn lemma_coinbase_ignored(
    leaves: Seq<LeafV>,
    txs1: Seq<TxV>,
    txs2: Seq<TxV>,
    index: Seq<(u32, Seq<u8>)>,
    table: Seq<u8>,
)
    requires
        txs1.len() >= 1,
        txs2.len() >= 1,
        txs1.skip(1) == txs2.skip(1),
    ensures
        process_model(leaves, txs1, index, table) == process_model(leaves, txs2, index, table),
        txs1.len() == 1 && leaves.len() == 0 ==> (process_model(leaves, txs1, index, table)
            matches Ok(st) && st.used == 0 && st.dels == Seq::<Seq<u8>>::empty() && st.map
            == Map::<OutPointV, TxOutV>::empty()),
{
    if txs1.len() == 1 && leaves.len() == 0 {
        assert(txs1.skip(1) =~= Seq::<TxV>::empty());
    }
}

/// The outpoint of output `b` of transaction `a` in a list.
pub open spec fn out_point_at(txs: Seq<TxV>, a: int, b: int) -> OutPointV {
    OutPointV { txid: txs[a].txid, vout: b as u32 }
}

/// An input walk that finds every outpoint already bound changes
/// nothing: same map, same deletions, no leaf consumed.
pub proof fn lemma_inputs_all_present(
    m: Map<OutPointV, TxOutV>,
    dels: Seq<Seq<u8>>,
    leaves: Seq<LeafV>,
    used: int,
    inputs: Seq<TxInV>,
    index: Seq<(u32, Seq<u8>)>,
    table: Seq<u8>,
)
    requires
        forall|j: int|
            0 <= j < inputs.len() ==> m.contains_key((#[trigger] inputs[j]).previous_output),
    ensures
        process_inputs(m, dels, leaves, used, inputs, index, table) == Ok::<PState, AcceptError>(
            PState { map: m, dels, used },
        ),
    decreases inputs.len(),
{
    if inputs.len() > 0 {
        assert(m.contains_key(inputs[0].previous_output));
        assert forall|j: int|
            0 <= j < inputs.drop_first().len() implies m.contains_key(
            (#[trigger] inputs.drop_first()[j]).previous_output,
        ) by {
            assert(inputs.drop_first()[j] == inputs[j + 1]);
        }
        lemma_inputs_all_present(m, dels, leaves, used, inputs.drop_first(), index, table);
    }
}

/// Law: a walk in which every input spends an output created earlier in
/// the same block (the coinbase aside) succeeds without consuming a
/// single leaf, however many leaves are on offer.
pub proof fn lemma_intra_block_consumes_no_leaf(
    m: Map<OutPointV, TxOutV>,
    dels: Seq<Seq<u8>>,
    leaves: Seq<LeafV>,
    used: int,
    txs: Seq<TxV>,
    index: Seq<(u32, Seq<u8>)>,
    table: Seq<u8>,
)
    requires
        forall|i: int| 0 <= i < txs.len() ==> (#[trigger] txs[i]).output.len() <= u32::MAX,
        forall|i: int, j: int|
            0 <= i < txs.len() && 0 <= j < txs[i].input.len() ==> m.contains_key(
                #[trigger] txs[i].input[j].previous_output,
            ) || exists|a: int, b: int|
                0 <= a <= i && 0 <= b < txs[a].output.len() && txs[i].input[j].previous_output
                    == #[trigger] out_point_at(txs, a, b),
    ensures
        process_txs(m, dels, leaves, used, txs, index, table) matches Ok(st) && st.dels == dels
            && st.used == used,
    decreases txs.len(),
{
    if txs.len() > 0 {
        let tx = txs[0];
        let m1 = with_outputs(m, tx.txid, tx.output, 0);
        lemma_with_outputs_mono(m, tx.txid, tx.output, 0);
        lemma_with_outputs_contains(m, tx.txid, tx.output, 0);
        assert forall|j: int|
            0 <= j < tx.input.len() implies m1.contains_key(
            (#[trigger] tx.input[j]).previous_output,
        ) by {
            assert(txs[0].input[j] == tx.input[j]);
            if !m.contains_key(tx.input[j].previous_output) {
                let (a, b): (int, int) = choose|a: int, b: int|
                    0 <= a <= 0 && 0 <= b < txs[a].output.len() && txs[0].input[j].previous_output
                        == out_point_at(txs, a, b);
                assert(m1.contains_key(OutPointV { txid: tx.txid, vout: b as u32 }));
            }
        }
        lemma_inputs_all_present(m1, dels, leaves, used, tx.input, index, table);
        let rest = txs.drop_first();
        assert forall|i: int, j: int|
            0 <= i < rest.len() && 0 <= j < rest[i].input.len() implies m1.contains_key(
            #[trigger] rest[i].input[j].previous_output,
        ) || exists|a: int, b: int|
            0 <= a <= i && 0 <= b < rest[a].output.len() && rest[i].input[j].previous_output
                == #[trigger] out_point_at(rest, a, b) by {
            assert(rest[i] == txs[i + 1]);
            assert(txs[i + 1].input[j].previous_output == rest[i].input[j].previous_output);
            if m.contains_key(txs[i + 1].input[j].previous_output) {
                assert(m1.contains_key(rest[i].input[j].previous_output));
            } else {
                let (a, b): (int, int) = choose|a: int, b: int|
                    0 <= a <= i + 1 && 0 <= b < txs[a].output.len()
                        && txs[i + 1].input[j].previous_output == out_point_at(txs, a, b);
                if a == 0 {
                    assert(m1.contains_key(OutPointV { txid: tx.txid, vout: b as u32 }));
                    assert(m1.contains_key(rest[i].input[j].previous_output));
                } else {
                    assert(rest[a - 1] == txs[a]);
                    assert(0 <= a - 1 <= i && 0 <= b < rest[a - 1].output.len()
                        && rest[i].input[j].previous_output == out_point_at(rest, a - 1, b));
                }
            }
        }
        assert forall|i: int|
            0 <= i < rest.len() implies (#[trigger] rest[i]).output.len() <= u32::MAX by {
            assert(rest[i] == txs[i + 1]);
        }
        lemma_intra_block_consumes_no_leaf(
            m1,
            dels,
            leaves,
            used,
            txs.drop_first(),
            index,
            table,
        );
    }
}

/// Law: an input whose outpoint is already bound when a transaction's
/// inputs are walked — because an earlier transaction of the block, or
/// this one, registered the output — consumes nothing: the walk is the
/// walk without that input, so no leaf is taken for it however many
/// leaves are on offer, and the map, deletions and cursor come out the
/// same.
pub proof fn lemma_bound_input_consumes_no_leaf(
    m: Map<OutPointV, TxOutV>,
    dels: Seq<Seq<u8>>,
    leaves: Seq<LeafV>,
    used: int,
    inputs: Seq<TxInV>,
    j: int,
    index: Seq<(u32, Seq<u8>)>,
    table: Seq<u8>,
)
    requires
        0 <= j < inputs.len(),
        m.contains_key(inputs[j].previous_output),
    ensures
        process_inputs(m, dels, leaves, used, inputs, index, table) == process_inputs(
            m,
            dels,
            leaves,
            used,
            inputs.remove(j),
            index,
            table,
        ),
    decreases j,
{
    if j == 0 {
        assert(inputs.remove(0) =~= inputs.drop_first());
    } else {
        let inp = inputs[0];
        assert(inputs.remove(j)[0] == inp);
        assert(inputs.remove(j).drop_first() =~= inputs.drop_first().remove(j - 1));
        assert(inputs.drop_first()[j - 1] == inputs[j]);
        if m.contains_key(inp.previous_output) {
            lemma_bound_input_consumes_no_leaf(
                m,
                dels,
                leaves,
                used,
                inputs.drop_first(),
                j - 1,
                index,
                table,
            );
        } else if used >= leaves.len() {
        } else {
            let leaf = leaves[used];
            let height = leaf.header_code >> 1;
            match resolve_hash(index, table, height) {
                None => {},
                Some(bh) => match reconstruct_output(leaf, inp) {
                    None => {},
                    Some(txo) => {
                        let m1 = m.insert(inp.previous_output, txo);
                        assert(m1.contains_key(inputs.drop_first()[j - 1].previous_output));
                        lemma_bound_input_consumes_no_leaf(
                            m1,
                            dels.push(
                                leaf_hash_of(
                                    bh,
                                    inp.previous_output,
                                    leaf.header_code,
                                    leaf.amount,
                                    txo.script_pubkey,
                                ),
                            ),
                            leaves,
                            used + 1,
                            inputs.drop_first(),
                            j - 1,
                            index,
                            table,
                        );
                    },
                },
            }
        }
    }
}

/// Registering outputs binds each outpoint to its own output, and a
/// binding under another transaction id is untouched.
pub proof fn lemma_with_outputs_binds(
    m: Map<OutPointV, TxOutV>,
    txid: Seq<u8>,
    outs: Seq<TxOutV>,
    k: int,
)
    requires
        0 <= k,
        outs.len() <= u32::MAX,
    ensures
        forall|b: int|
            k <= b < outs.len() ==> #[trigger] with_outputs(m, txid, outs, k).contains_key(
                OutPointV { txid, vout: b as u32 },
            ) && with_outputs(m, txid, outs, k)[OutPointV { txid, vout: b as u32 }] == outs[b],
        forall|key: OutPointV| #[trigger]
            m.contains_key(key) && (key.txid != txid || (key.vout as int) < k) ==> with_outputs(
                m,
                txid,
                outs,
                k,
            ).contains_key(key) && with_outputs(m, txid, outs, k)[key] == m[key],
    decreases outs.len() - k,
{
    if 0 <= k < outs.len() {
        let kk = OutPointV { txid, vout: k as u32 };
        let m1 = m.insert(kk, outs[k]);
        lemma_with_outputs_binds(m1, txid, outs, k + 1);
        assert forall|b: int| k <= b < outs.len() implies #[trigger] with_outputs(
            m,
            txid,
            outs,
            k,
        ).contains_key(OutPointV { txid, vout: b as u32 }) && with_outputs(m, txid, outs, k)[
            OutPointV { txid, vout: b as u32 }
        ] == outs[b] by {
            if b == k {
                assert(m1.contains_key(kk) && m1[kk] == outs[k]);
                assert((kk.vout as int) < k + 1);
                assert(with_outputs(m1, txid, outs, k + 1).contains_key(kk) && with_outputs(
                    m1,
                    txid,
                    outs,
                    k + 1,
                )[kk] == m1[kk]);
            } else {
                assert(with_outputs(m1, txid, outs, k + 1).contains_key(
                    OutPointV { txid, vout: b as u32 },
                ));
            }
        }
        assert forall|key: OutPointV| #[trigger]
            m.contains_key(key) && (key.txid != txid || (key.vout as int) < k) implies
            with_outputs(m, txid, outs, k).contains_key(key) && with_outputs(m, txid, outs, k)[
            key
        ] == m[key] by {
            assert(key != kk);
            assert(m1.contains_key(key) && m1[key] == m[key]);
            assert(with_outputs(m1, txid, outs, k + 1).contains_key(key) && with_outputs(
                m1,
                txid,
                outs,
                k + 1,
            )[key] == m1[key]);
        }
    }
}

/// A successful input walk never rebinds an outpoint that is already
/// bound: its value survives untouched.
pub proof fn lemma_inputs_preserve_value(
    m: Map<OutPointV, TxOutV>,
    dels: Seq<Seq<u8>>,
    leaves: Seq<LeafV>,
    used: int,
    inputs: Seq<TxInV>,
    index: Seq<(u32, Seq<u8>)>,
    table: Seq<u8>,
    key: OutPointV,
)
    requires
        process_inputs(m, dels, leaves, used, inputs, index, table) is Ok,
        m.contains_key(key),
    ensures
        ({
            let st = process_inputs(m, dels, leaves, used, inputs, index, table).unwrap();
            st.map.contains_key(key) && st.map[key] == m[key]
        }),
    decreases inputs.len(),
{
    if inputs.len() > 0 {
        let inp = inputs[0];
        if m.contains_key(inp.previous_output) {
            lemma_inputs_preserve_value(
                m,
                dels,
                leaves,
                used,
                inputs.drop_first(),
                index,
                table,
                key,
            );
        } else {
            let leaf = leaves[used];
            let height = leaf.header_code >> 1;
            let bh = resolve_hash(index, table, height).unwrap();
            let txo = reconstruct_output(leaf, inp).unwrap();
            let m1 = m.insert(inp.previous_output, txo);
            assert(inp.previous_output != key);
            assert(m1.contains_key(key) && m1[key] == m[key]);
            lemma_inputs_preserve_value(
                m1,
                dels.push(
                    leaf_hash_of(bh, inp.previous_output, leaf.header_code, leaf.amount,
                        txo.script_pubkey),
                ),
                leaves,
                used + 1,
                inputs.drop_first(),
                index,
                table,
                key,
            );
        }
    }
}

/// A successful walk over transactions whose ids all differ from the
/// key's keeps an existing binding and its value.
pub proof fn lemma_txs_preserve_value(
    m: Map<OutPointV, TxOutV>,
    dels: Seq<Seq<u8>>,
    leaves: Seq<LeafV>,
    used: int,
    txs: Seq<TxV>,
    index: Seq<(u32, Seq<u8>)>,
    table: Seq<u8>,
    key: OutPointV,
)
    requires
        process_txs(m, dels, leaves, used, txs, index, table) is Ok,
        m.contains_key(key),
        forall|t: int| 0 <= t < txs.len() ==> (#[trigger] txs[t]).txid != key.txid,
        forall|t: int| 0 <= t < txs.len() ==> (#[trigger] txs[t]).output.len() <= u32::MAX,
    ensures
        ({
            let st = process_txs(m, dels, leaves, used, txs, index, table).unwrap();
            st.map.contains_key(key) && st.map[key] == m[key]
        }),
    decreases txs.len(),
{
    if txs.len() > 0 {
        let tx = txs[0];
        let m1 = with_outputs(m, tx.txid, tx.output, 0);
        lemma_with_outputs_binds(m, tx.txid, tx.output, 0);
        assert(m1.contains_key(key) && m1[key] == m[key]);
        let st1 = process_inputs(m1, dels, leaves, used, tx.input, index, table).unwrap();
        lemma_inputs_preserve_value(m1, dels, leaves, used, tx.input, index, table, key);
        assert forall|t: int| 0 <= t < txs.drop_first().len() implies (#[trigger] txs.drop_first()[
            t
        ]).txid != key.txid by {
            assert(txs.drop_first()[t] == txs[t + 1]);
        }
        assert forall|t: int| 0 <= t < txs.drop_first().len() implies (#[trigger] txs.drop_first()[
            t
        ]).output.len() <= u32::MAX by {
            assert(txs.drop_first()[t] == txs[t + 1]);
        }
        lemma_txs_preserve_value(
            st1.map,
            st1.dels,
            leaves,
            st1.used,
            txs.drop_first(),
            index,
            table,
            key,
        );
    }
}

/// On a walk that succeeds, the outpoint of output `v` of the
/// transaction at `a` is bound to that very output, provided no other
/// walked transaction shares its id.
pub proof fn lemma_txs_bind_created_output(
    m: Map<OutPointV, TxOutV>,
    dels: Seq<Seq<u8>>,
    leaves: Seq<LeafV>,
    used: int,
    txs: Seq<TxV>,
    index: Seq<(u32, Seq<u8>)>,
    table: Seq<u8>,
    a: int,
    v: int,
)
    requires
        process_txs(m, dels, leaves, used, txs, index, table) is Ok,
        0 <= a < txs.len(),
        0 <= v < txs[a].output.len(),
        forall|t: int| 0 <= t < txs.len() ==> (#[trigger] txs[t]).output.len() <= u32::MAX,
        forall|t: int|
            0 <= t < txs.len() && t != a ==> (#[trigger] txs[t]).txid != txs[a].txid,
    ensures
        ({
            let st = process_txs(m, dels, leaves, used, txs, index, table).unwrap();
            let key = OutPointV { txid: txs[a].txid, vout: v as u32 };
            st.map.contains_key(key) && st.map[key] == txs[a].output[v]
        }),
    decreases txs.len(),
{
    let tx = txs[0];
    let m1 = with_outputs(m, tx.txid, tx.output, 0);
    let st1 = process_inputs(m1, dels, leaves, used, tx.input, index, table).unwrap();
    let key = OutPointV { txid: txs[a].txid, vout: v as u32 };
    if a == 0 {
        lemma_with_outputs_binds(m, tx.txid, tx.output, 0);
        assert(m1.contains_key(key) && m1[key] == txs[0].output[v]);
        lemma_inputs_preserve_value(m1, dels, leaves, used, tx.input, index, table, key);
        assert forall|t: int| 0 <= t < txs.drop_first().len() implies (#[trigger] txs.drop_first()[
            t
        ]).txid != key.txid by {
            assert(txs.drop_first()[t] == txs[t + 1]);
        }
        assert forall|t: int| 0 <= t < txs.drop_first().len() implies (#[trigger] txs.drop_first()[
            t
        ]).output.len() <= u32::MAX by {
            assert(txs.drop_first()[t] == txs[t + 1]);
        }
        lemma_txs_preserve_value(
            st1.map,
            st1.dels,
            leaves,
            st1.used,
            txs.drop_first(),
            index,
            table,
            key,
        );
    } else {
        assert(txs.drop_first()[a - 1] == txs[a]);
        assert forall|t: int|
            0 <= t < txs.drop_first().len() && t != a - 1 implies (#[trigger] txs.drop_first()[
            t
        ]).txid != txs.drop_first()[a - 1].txid by {
            assert(txs.drop_first()[t] == txs[t + 1]);
        }
        assert forall|t: int| 0 <= t < txs.drop_first().len() implies (#[trigger] txs.drop_first()[
            t
        ]).output.len() <= u32::MAX by {
            assert(txs.drop_first()[t] == txs[t + 1]);
        }
        lemma_txs_bind_created_output(
            st1.map,
            st1.dels,
            leaves,
            st1.used,
            txs.drop_first(),
            index,
            table,
            a - 1,
            v,
        );
    }
}

/// Law: when the walk succeeds, an input spending output `v` of an
/// earlier (or the same) non-coinbase transaction finds in the map that
/// transaction's own output, provided transaction ids are unique in the
/// block; together with the cursor laws above, such a spend is settled
/// inside the block and never from a leaf.
pub proof fn lemma_intra_spend_maps_to_created_output(
    leaves: Seq<LeafV>,
    txs: Seq<TxV>,
    index: Seq<(u32, Seq<u8>)>,
    table: Seq<u8>,
    a: int,
    v: int,
)
    requires
        process_model(leaves, txs, index, table) is Ok,
        1 <= a < txs.len(),
        0 <= v < txs[a].output.len(),
        forall|t: int| 0 <= t < txs.len() ==> (#[trigger] txs[t]).output.len() <= u32::MAX,
        forall|t: int|
            1 <= t < txs.len() && t != a ==> (#[trigger] txs[t]).txid != txs[a].txid,
    ensures
        ({
            let st = process_model(leaves, txs, index, table).unwrap();
            let key = OutPointV { txid: txs[a].txid, vout: v as u32 };
            st.map.contains_key(key) && st.map[key] == txs[a].output[v]
        }),
{
    let rest = txs.skip(1);
    assert(rest[a - 1] == txs[a]);
    assert forall|t: int| 0 <= t < rest.len() implies (#[trigger] rest[t]).output.len()
        <= u32::MAX by {
        assert(rest[t] == txs[t + 1]);
    }
    assert forall|t: int| 0 <= t < rest.len() && t != a - 1 implies (#[trigger] rest[t]).txid
        != rest[a - 1].txid by {
        assert(rest[t] == txs[t + 1]);
    }
    lemma_txs_bind_created_output(
        Map::empty(),
        Seq::empty(),
        leaves,
        0,
        rest,
        index,
        table,
        a - 1,
        v,
    );
}

} // verus!
