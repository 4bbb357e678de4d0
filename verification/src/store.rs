//! The key-value chain store: best-tip pointer, serialized roots, the
//! header index keyed by block hash and the height-to-hash block index.
//! Writes append to a journal; a lookup takes the latest entry for its
//! key, so an update is a plain append.

use vstd::prelude::*;
use crate::types::{Header, HeaderV};
use crate::bytesutil::{bytes_eq, clone_bytes};

verus! {

/// The error a store operation can report. The in-memory store never
/// fails, so no operation here ever returns it; it remains the
/// interface's failure type.
#[derive(Debug)]
pub struct Error;

/// The best-chain pointer: the tip's hash and height.
#[derive(Clone, Debug, PartialEq, Eq)]
pub struct BestChain {
    pub hash: Vec<u8>,
    pub height: u32,
}

/// Spec-level best-chain pointer.
#[verifier::ext_equal]
pub struct BestChainV {
    pub hash: Seq<u8>,
    pub height: u32,
}

impl View for BestChain {
    type V = BestChainV;

    open spec fn view(&self) -> BestChainV {
        BestChainV { hash: self.hash@, height: self.height }
    }
}

/// The latest hash recorded for a height, scanning the journal from its
/// newest entry.
pub open spec fn index_lookup(s: Seq<(u32, Seq<u8>)>, h: u32) -> Option<Seq<u8>>
    decreases s.len(),
{
    if s.len() == 0 {
        None
    } else if s.last().0 == h {
        Some(s.last().1)
    } else {
        index_lookup(s.drop_last(), h)
    }
}

/// The latest header recorded for a block hash, scanning the journal
/// from its newest entry.
pub open spec fn header_lookup(s: Seq<(Seq<u8>, HeaderV)>, h: Seq<u8>) -> Option<HeaderV>
    decreases s.len(),
{
    if s.len() == 0 {
        None
    } else if s.last().0 == h {
        Some(s.last().1)
    } else {
        header_lookup(s.drop_last(), h)
    }
}

/// A simple in-memory chain store. Contents are lost when the instance
/// is dropped; a persistent deployment would sit behind the same
/// interface.
#[derive(Debug)]
pub struct WasmStore {
    pub roots: Option<Vec<u8>>,
    pub height: Option<BestChain>,
    pub headers: Vec<(Vec<u8>, Header)>,
    pub index: Vec<(u32, Vec<u8>)>,
}

impl WasmStore {
    /// The height-to-hash journal as pairs of plain values.
    pub open spec fn index_v(&self) -> Seq<(u32, Seq<u8>)> {
        Seq::new(self.index@.len(), |i: int| (self.index@[i].0, self.index@[i].1@))
    }

    /// The header journal as pairs of plain values.
    pub open spec fn headers_v(&self) -> Seq<(Seq<u8>, HeaderV)> {
        Seq::new(self.headers@.len(), |i: int| (self.headers@[i].0@, self.headers@[i].1@))
    }

    /// An empty store.
    pub fn new() -> (r: WasmStore)
        ensures
            r.roots is None,
            r.height is None,
            r.index_v() =~= Seq::<(u32, Seq<u8>)>::empty(),
            r.headers_v() =~= Seq::<(Seq<u8>, HeaderV)>::empty(),
    {
        WasmStore { roots: None, height: None, headers: Vec::new(), index: Vec::new() }
    }

    /// Persists the serialized accumulator roots.
    pub fn save_roots(&mut self, roots: Vec<u8>) -> (r: Result<(), Error>)
        ensures
            r is Ok,
            final(self).roots == Some(roots),
            final(self).height == old(self).height,
            final(self).headers == old(self).headers,
            final(self).index == old(self).index,
    {
        self.roots = Some(roots);
        Ok(())
    }

    /// The serialized roots saved last, if any.
    pub fn load_roots(&self) -> (r: Result<Option<Vec<u8>>, Error>)
        ensures
            r is Ok,
            r matches Ok(o) ==> (o is Some <==> self.roots is Some) && (o matches Some(v)
                ==> v@ == self.roots.unwrap()@),
    {
        match &self.roots {
            Some(v) => Ok(Some(clone_bytes(v))),
            None => Ok(None),
        }
    }

    /// Persists the best-chain pointer.
    pub fn save_height(&mut self, best: BestChain) -> (r: Result<(), Error>)
        ensures
            r is Ok,
            final(self).height == Some(best),
            final(self).roots == old(self).roots,
            final(self).headers == old(self).headers,
            final(self).index == old(self).index,
    {
        self.height = Some(best);
        Ok(())
    }

    /// The best-chain pointer saved last, if any.
    pub fn load_height(&self) -> (r: Result<Option<BestChain>, Error>)
        ensures
            r is Ok,
            r matches Ok(o) ==> (o is Some <==> self.height is Some) && (o matches Some(b)
                ==> b@ == self.height.unwrap()@),
    {
        match &self.height {
            Some(b) => Ok(Some(BestChain { hash: clone_bytes(&b.hash), height: b.height })),
            None => Ok(None),
        }
    }

    /// Records a header under its block hash.
    pub fn save_header(&mut self, block_hash: Vec<u8>, header: Header) -> (r: Result<(), Error>)
        ensures
            r is Ok,
            final(self).headers_v() == old(self).headers_v().push((block_hash@, header@)),
            final(self).roots == old(self).roots,
            final(self).height == old(self).height,
            final(self).index == old(self).index,
    {
        self.headers.push((block_hash, header));
        proof {
            assert(self.headers_v() =~= old(self).headers_v().push(
                (self.headers@.last().0@, self.headers@.last().1@),
            ));
        }
        Ok(())
    }

    /// The latest header recorded for a block hash.
    pub fn get_header(&self, block_hash: &Vec<u8>) -> (r: Result<Option<Header>, Error>)
        ensures
            r is Ok,
            r matches Ok(o) ==> (o is Some <==> header_lookup(self.headers_v(), block_hash@)
                is Some) && (o matches Some(h) ==> header_lookup(self.headers_v(), block_hash@)
                == Some(h@)),
    {
        let mut j: usize = self.headers.len();
        proof {
            assert(self.headers_v().take(j as int) =~= self.headers_v());
        }
        while j > 0
            invariant
                j <= self.headers@.len(),
                header_lookup(self.headers_v(), block_hash@) == header_lookup(
                    self.headers_v().take(j as int),
                    block_hash@,
                ),
            decreases j,
        {
            j = j - 1;
            proof {
                assert(self.headers_v().take(j as int + 1).drop_last() =~= self.headers_v().take(
                    j as int,
                ));
                assert(self.headers_v().take(j as int + 1).last() == self.headers_v()[j as int]);
            }
            if bytes_eq(&self.headers[j].0, block_hash) {
                let h = &self.headers[j].1;
                return Ok(
                    Some(
                        Header {
                            version: h.version,
                            prev_blockhash: clone_bytes(&h.prev_blockhash),
                            merkle_root: clone_bytes(&h.merkle_root),
                            time: h.time,
                            bits: h.bits,
                            nonce: h.nonce,
                        },
                    ),
                );
            }
        }
        proof {
            assert(self.headers_v().take(0) =~= Seq::<(Seq<u8>, HeaderV)>::empty());
        }
        Ok(None)
    }

    /// Records the block hash for a height.
    pub fn update_block_index(&mut self, height: u32, hash: Vec<u8>) -> (r: Result<(), Error>)
        ensures
            r is Ok,
            final(self).index_v() == old(self).index_v().push((height, hash@)),
            final(self).roots == old(self).roots,
            final(self).height == old(self).height,
            final(self).headers == old(self).headers,
    {
        self.index.push((height, hash));
        proof {
            assert(self.index_v() =~= old(self).index_v().push(
                (self.index@.last().0, self.index@.last().1@),
            ));
        }
        Ok(())
    }

    /// The latest block hash recorded for a height.
    pub fn get_block_hash(&self, height: u32) -> (r: Result<Option<Vec<u8>>, Error>)
        ensures
            r is Ok,
            r matches Ok(o) ==> (o is Some <==> index_lookup(self.index_v(), height) is Some) && (
            o matches Some(v) ==> index_lookup(self.index_v(), height) == Some(v@)),
    {
        let mut j: usize = self.index.len();
        proof {
            assert(self.index_v().take(j as int) =~= self.index_v());
        }
        while j > 0
            invariant
                j <= self.index@.len(),
                index_lookup(self.index_v(), height) == index_lookup(
                    self.index_v().take(j as int),
                    height,
                ),
            decreases j,
        {
            j = j - 1;
            proof {
                assert(self.index_v().take(j as int + 1).drop_last() =~= self.index_v().take(
                    j as int,
                ));
                assert(self.index_v().take(j as int + 1).last() == self.index_v()[j as int]);
            }
            if self.index[j].0 == height {
                return Ok(Some(clone_bytes(&self.index[j].1)));
            }
        }
        proof {
            assert(self.index_v().take(0) =~= Seq::<(u32, Seq<u8>)>::empty());
        }
        Ok(None)
    }

    /// Flushes buffered writes; a no-op for the in-memory store.
    pub fn flush(&self) -> (r: Result<(), Error>)
        ensures
            r is Ok,
    {
        Ok(())
    }
}

} // verus!
