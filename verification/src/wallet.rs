//! The wallet: a set of watched locking scripts and the list of
//! transactions found relevant. The set grows only by an explicit watch;
//! the list grows only when a block is accepted. A transaction is
//! relevant when one of its outputs pays a watched script; spends of a
//! watched output are deliberately not tracked.

use vstd::prelude::*;
use crate::types::{clone_transaction, Transaction, TxV, AcceptError};
use crate::digest::{parse_address, spk_of_addr};
use crate::bytesutil::bytes_eq;
use crate::procproof::txs_view;

verus! {

/// Whether a transaction pays at least one watched script.
pub open spec fn tx_relevant(addrs: Set<Seq<u8>>, tx: TxV) -> bool {
    exists|j: int| 0 <= j < tx.output.len() && addrs.contains(#[trigger] tx.output[j].script_pubkey)
}

/// The transactions of a block that pay a watched script, in block
/// order.
pub open spec fn scan_spec(addrs: Set<Seq<u8>>, txs: Seq<TxV>) -> Seq<TxV> {
    txs.filter(|t: TxV| tx_relevant(addrs, t))
}

/// A wallet: watched locking scripts and the relevant-transaction list.
#[derive(Debug)]
pub struct Wallet {
    pub address_set: Vec<Vec<u8>>,
    pub transaction_list: Vec<Transaction>,
}

impl Wallet {
    /// The set of watched locking scripts.
    pub open spec fn addr_set(&self) -> Set<Seq<u8>> {
        self.address_set.deep_view().to_set()
    }

    /// The relevant transactions, as views, in the order found.
    pub open spec fn tx_list(&self) -> Seq<TxV> {
        txs_view(self.transaction_list@)
    }

    /// An empty wallet.
    pub fn new() -> (r: Wallet)
        ensures
            r.addr_set() == Set::<Seq<u8>>::empty(),
            r.tx_list() == Seq::<TxV>::empty(),
    {
        let w = Wallet { address_set: Vec::new(), transaction_list: Vec::new() };
        proof {
            assert(w.address_set.deep_view() =~~= Seq::<Seq<u8>>::empty());
            assert(w.addr_set() =~= Set::<Seq<u8>>::empty());
            assert(w.tx_list() =~= Seq::<TxV>::empty());
        }
        w
    }

    /// Whether a locking script is watched.
    pub fn is_watched(&self, spk: &Vec<u8>) -> (r: bool)
        ensures
            r == self.addr_set().contains(spk@),
    {
        let mut i: usize = 0;
        while i < self.address_set.len()
            invariant
                i <= self.address_set@.len(),
                forall|k: int| 0 <= k < i ==> self.address_set.deep_view()[k] != spk@,
            decreases self.address_set@.len() - i,
        {
            let hit = bytes_eq(&self.address_set[i], spk);
            proof {
                assert(self.address_set@[i as int].deep_view() =~= self.address_set@[i as int]@);
            }
            if hit {
                proof {
                    assert(self.address_set.deep_view()[i as int] == spk@);
                    assert(self.address_set.deep_view().contains(spk@));
                }
                return true;
            }
            i = i + 1;
        }
        proof {
            assert(!self.address_set.deep_view().contains(spk@));
        }
        false
    }

    /// Watches a locking script. Watching a script twice leaves the set
    /// as watching it once did: the watch is idempotent.
    pub fn watch_script(&mut self, spk: Vec<u8>)
        ensures
            final(self).addr_set() == old(self).addr_set().insert(spk@),
            final(self).transaction_list == old(self).transaction_list,
    {
        let ghost sv = spk@;
        if self.is_watched(&spk) {
            proof {
                assert(self.addr_set().insert(sv) =~= self.addr_set());
            }
        } else {
            let ghost prev = self.address_set.deep_view();
            self.address_set.push(spk);
            proof {
                assert(self.address_set.deep_view() =~~= prev.push(sv));
                assert forall|x: Seq<u8>| #[trigger]
                    self.addr_set().contains(x) implies old(self).addr_set().insert(sv).contains(
                    x,
                ) by {
                    let k = choose|k: int|
                        0 <= k < prev.push(sv).len() && prev.push(sv)[k] == x;
                    if k < prev.len() {
                        assert(prev.contains(x));
                    }
                }
                assert forall|x: Seq<u8>| #[trigger]
                    old(self).addr_set().insert(sv).contains(x) implies self.addr_set().contains(
                    x,
                ) by {
                    if x == sv {
                        assert(prev.push(sv)[prev.len() as int] == sv);
                        assert(prev.push(sv).contains(x));
                    } else {
                        let k = choose|k: int| 0 <= k < prev.len() && prev[k] == x;
                        assert(prev.push(sv)[k] == x);
                        assert(prev.push(sv).contains(x));
                    }
                }
                assert(self.addr_set() =~= old(self).addr_set().insert(sv));
            }
        }
    }


    /// The transactions of a block that pay a watched script, in block
    /// order: a pure read, nothing in the wallet moves.
    pub fn scan(&self, txs: &Vec<Transaction>) -> (r: Vec<Transaction>)
        ensures
            txs_view(r@) == scan_spec(self.addr_set(), txs_view(txs@)),
    {
        let ghost tv = txs_view(txs@);
        let mut out: Vec<Transaction> = Vec::new();
        let mut i: usize = 0;
        proof {
            assert(tv.take(0) =~= Seq::<TxV>::empty());
            reveal(Seq::filter);
        }
        while i < txs.len()
            invariant
                i <= txs@.len(),
                tv == txs_view(txs@),
                txs_view(out@) == scan_spec(self.addr_set(), tv.take(i as int)),
            decreases txs@.len() - i,
        {
            let tx = &txs[i];
            proof {
                assert(tx@ == tv[i as int]);
                assert(tv.take(i as int + 1).drop_last() =~= tv.take(i as int));
                assert(tv.take(i as int + 1).last() == tv[i as int]);
                reveal(Seq::filter);
            }
            let ghost prevc = txs_view(out@);
            if transaction_relevant(self, tx) {
                out.push(clone_transaction(tx));
                proof {
                    assert(txs_view(out@) =~~= prevc.push(tv[i as int]));
                }
            }
            proof {
                assert(txs_view(out@) =~~= scan_spec(self.addr_set(), tv.take(i as int + 1)));
            }
            i = i + 1;
        }
        proof {
            assert(tv.take(tv.len() as int) =~= tv);
        }
        out
    }

    /// Watches the script of an address string; fails with
    /// `InvalidAddress` when the string is not a valid signet address.
    pub fn watch(&mut self, addr: &str) -> (r: Result<(), AcceptError>)
        ensures
            r is Ok <==> spk_of_addr(addr@) is Some,
            r matches Ok(u) ==> final(self).addr_set() == old(self).addr_set().insert(
                spk_of_addr(addr@).unwrap(),
            ) && final(self).transaction_list == old(self).transaction_list,
            r matches Err(e) ==> e == AcceptError::InvalidAddress && *final(self) == *old(self),
    {
        match parse_address(addr) {
            Some(spk) => {
                self.watch_script(spk);
                Ok(())
            },
            None => Err(AcceptError::InvalidAddress),
        }
    }
}

/// Law: watching the same script twice yields the same set of watched
/// scripts as watching it once; `watch_script` adds `a` to the set, and
/// a second insertion changes nothing.
pub proof fn lemma_watch_idempotent(s: Set<Seq<u8>>, a: Seq<u8>)
    ensures
        s.insert(a).insert(a) == s.insert(a),
{
    assert(s.insert(a).insert(a) =~= s.insert(a));
}

/// Whether a transaction pays a watched script.
pub fn transaction_relevant(w: &Wallet, tx: &Transaction) -> (r: bool)
    ensures
        r == tx_relevant(w.addr_set(), tx@),
{
    let mut j: usize = 0;
    while j < tx.output.len()
        invariant
            j <= tx.output@.len(),
            forall|k: int|
                0 <= k < j ==> !w.addr_set().contains((#[trigger] tx.output@[k]@).script_pubkey),
        decreases tx.output@.len() - j,
    {
        if w.is_watched(&tx.output[j].script_pubkey) {
            proof {
                assert(tx@.output[j as int].script_pubkey == tx.output@[j as int]@.script_pubkey);
                assert(w.addr_set().contains(tx@.output[j as int].script_pubkey));
            }
            return true;
        }
        j = j + 1;
    }
    proof {
        assert forall|j: int|
            0 <= j < tx@.output.len() implies !w.addr_set().contains(
            #[trigger] tx@.output[j].script_pubkey,
        ) by {
            assert(tx@.output[j] == tx.output@[j]@);
        }
    }
    false
}

} // verus!
