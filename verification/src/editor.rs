//! The editing session around a decoded snapshot: a selection cursor over the
//! entry sequence and the closed set of mutations a user can apply — move the
//! cursor, delete the selected entry, insert a new entry from hex input.
//!
//! Presentation (drawing, key handling, status messages, file I/O) lives with
//! the caller; the session holds only what the mutations are about.

use vstd::prelude::*;
use crate::bytes::copy_range;
use crate::model::{MempoolSerde, Txn, TxnV, txns_view};
use crate::txcodec::{hex_decode, hex_ok, hex_bytes, tx_parse, tx_boundary, payload_wf,
    current_time};
use crate::MempoolSerdeError;

verus! {

/// A snapshot under edit, with the cursor of the entry list.
pub struct Editor {
    pub mempool: MempoolSerde,
    pub selected: Option<usize>,
}

impl Editor {
    /// The cursor points at an entry whenever it points anywhere, and the
    /// snapshot itself is well formed.
    pub open spec fn wf(&self) -> bool {
        &&& self.selected matches Some(i) ==> i < self.mempool@.txs.len()
        &&& self.mempool.wf()
    }

    /// Opens a session on a snapshot, selecting the first entry if there is
    /// one.
    pub fn new(mempool: MempoolSerde) -> (r: Editor)
        requires
            mempool.wf(),
        ensures
            r.mempool == mempool,
            r.mempool@.txs.len() > 0 ==> r.selected == Some(0usize),
            r.mempool@.txs.len() == 0 ==> r.selected is None,
            r.wf(),
    {
        let selected: Option<usize> = if mempool.txs.len() > 0 {
            Some(0)
        } else {
            None
        };
        Editor { mempool, selected }
    }

    /// The entry under the cursor, if any.
    pub fn selected_tx(&self) -> (r: Option<&Txn>)
        requires
            self.wf(),
        ensures
            self.selected matches Some(i) ==> r matches Some(t) && t@ == self.mempool@.txs[i as int],
            self.selected is None ==> r is None,
    {
        match self.selected {
            Some(i) => {
                if i < self.mempool.txs.len() {
                    Some(&self.mempool.txs[i])
                } else {
                    None
                }
            },
            None => None,
        }
    }

    /// Moves the cursor one entry down, wrapping at the end; a no-op on an
    /// empty list.
    pub fn next(&mut self)
        requires
            old(self).wf(),
        ensures
            final(self).wf(),
            final(self).mempool == old(self).mempool,
            old(self).mempool@.txs.len() == 0 ==> final(self).selected == old(self).selected,
            old(self).mempool@.txs.len() > 0 && old(self).selected is None ==> final(self).selected == Some(0usize),
            old(self).mempool@.txs.len() > 0 ==> (old(self).selected matches Some(i)
                ==> final(self).selected == Some(
                if i + 1 == old(self).mempool@.txs.len() {
                    0usize
                } else {
                    (i + 1) as usize
                },
            )),
    {
        let len = self.mempool.txs.len();
        if len == 0 {
            return ;
        }
        let i: usize = match self.selected {
            Some(i) => if i + 1 >= len {
                0
            } else {
                i + 1
            },
            None => 0,
        };
        self.selected = Some(i);
    }

    /// Moves the cursor one entry up, wrapping at the start; a no-op on an
    /// empty list.
    pub fn previous(&mut self)
        requires
            old(self).wf(),
        ensures
            final(self).wf(),
            final(self).mempool == old(self).mempool,
            old(self).mempool@.txs.len() == 0 ==> final(self).selected == old(self).selected,
            old(self).mempool@.txs.len() > 0 && old(self).selected is None ==> final(self).selected == Some(0usize),
            old(self).mempool@.txs.len() > 0 ==> (old(self).selected matches Some(i)
                ==> final(self).selected == Some(
                if i == 0 {
                    (old(self).mempool@.txs.len() - 1) as usize
                } else {
                    (i - 1) as usize
                },
            )),
    {
        let len = self.mempool.txs.len();
        if len == 0 {
            return ;
        }
        let i: usize = match self.selected {
            Some(i) => if i == 0 {
                len - 1
            } else {
                i - 1
            },
            None => 0,
        };
        self.selected = Some(i);
    }

    /// Deletes the entry under the cursor: the sequence keeps every other
    /// entry, in order. The cursor stays at the same position, clamped to the
    /// shortened list; a no-op when nothing is selected.
    pub fn delete_selected(&mut self)
        requires
            old(self).wf(),
        ensures
            final(self).wf(),
            old(self).selected is None ==> *final(self) == *old(self),
            old(self).selected matches Some(i) ==> {
                &&& final(self).mempool@.txs == old(self).mempool@.txs.remove(i as int)
                &&& final(self).mempool@.map_deltas == old(self).mempool@.map_deltas
                &&& final(self).mempool@.unbroadcast_txids == old(self).mempool@.unbroadcast_txids
                &&& final(self).mempool.version == old(self).mempool.version
                &&& final(self).selected == (if old(self).mempool@.txs.len() <= 1 {
                    Option::<usize>::None
                } else if i + 1 == old(self).mempool@.txs.len() {
                    Some((i - 1) as usize)
                } else {
                    Some(i)
                })
            },
    {
        let ghost txs0 = self.mempool.txs@;
        match self.selected {
            None => (),
            Some(i) => {
                self.mempool.txs.remove(i);
                proof {
                    assert(txns_view(self.mempool.txs@) =~= txns_view(txs0).remove(i as int));
                    assert forall|j: int| 0 <= j < self.mempool.txs@.len() implies payload_wf(
                        (#[trigger] txns_view(self.mempool.txs@)[j]).payload,
                    ) by {
                        if j < i {
                            assert(txns_view(self.mempool.txs@)[j] == txns_view(txs0)[j]);
                        } else {
                            assert(txns_view(self.mempool.txs@)[j] == txns_view(txs0)[j + 1]);
                        }
                    }
                }
                if self.mempool.txs.len() == 0 {
                    self.selected = None;
                } else if i >= self.mempool.txs.len() {
                    self.selected = Some(self.mempool.txs.len() - 1);
                } else {
                    self.selected = Some(i);
                }
            },
        }
    }

    /// Inserts an entry built from hex input, stamped with the given time and
    /// a zero fee delta: the new entry is appended after every existing one
    /// and the cursor moves to it. Malformed hex and a payload that is not
    /// one well-formed transaction record are refused without touching the
    /// snapshot.
    pub fn insert_tx_at(&mut self, hex: &str, time: i64) -> (r: Result<(), MempoolSerdeError>)
        requires
            old(self).wf(),
        ensures
            final(self).wf(),
            r is Ok <==> hex_ok(hex@) && tx_parse(hex_bytes(hex@)) is Some,
            r matches Err(e) ==> {
                &&& *final(self) == *old(self)
                &&& (e == MempoolSerdeError::InvalidHex <==> !hex_ok(hex@))
                &&& (e == MempoolSerdeError::InvalidPayload <==> hex_ok(hex@) && tx_parse(
                    hex_bytes(hex@),
                ) is None)
            },
            r is Ok ==> (tx_parse(hex_bytes(hex@)) matches Some(n) ==> {
                &&& final(self).mempool@.txs == old(self).mempool@.txs.push(
                    TxnV {
                        payload: hex_bytes(hex@).subrange(0, n as int),
                        time: time,
                        fee_delta: 0i64,
                    },
                )
                &&& final(self).mempool@.map_deltas == old(self).mempool@.map_deltas
                &&& final(self).mempool@.unbroadcast_txids == old(self).mempool@.unbroadcast_txids
                &&& final(self).mempool.version == old(self).mempool.version
                &&& final(self).selected == Some((old(self).mempool@.txs.len()) as usize)
            }),
    {
        let b = match hex_decode(hex) {
            None => {
                return Err(MempoolSerdeError::InvalidHex);
            },
            Some(b) => b,
        };
        proof {
            assert(b@.subrange(0, b@.len() as int) =~= b@);
        }
        let n = match tx_boundary(&b, 0) {
            None => {
                return Err(MempoolSerdeError::InvalidPayload);
            },
            Some(n) => n,
        };
        let payload = copy_range(&b, 0, n);
        let ghost txs0 = self.mempool.txs@;
        let t = Txn { payload, time, fee_delta: 0 };
        self.mempool.txs.push(t);
        self.selected = Some(self.mempool.txs.len() - 1);
        proof {
            assert(txns_view(self.mempool.txs@) =~= txns_view(txs0).push(t@));
            assert forall|j: int| 0 <= j < self.mempool.txs@.len() implies payload_wf(
                (#[trigger] txns_view(self.mempool.txs@)[j]).payload,
            ) by {
                if j < txs0.len() {
                    assert(txns_view(self.mempool.txs@)[j] == txns_view(txs0)[j]);
                }
            }
        }
        Ok(())
    }

    /// Inserts an entry built from hex input, stamped with the wall clock, as
    /// the interactive editor does. The appended entry and the refusals are
    /// those of `insert_tx_at`; only the timestamp is left open, since the
    /// clock decides it.
    pub fn insert_tx(&mut self, hex: &str) -> (r: Result<(), MempoolSerdeError>)
        requires
            old(self).wf(),
        ensures
            final(self).wf(),
            r is Ok <==> hex_ok(hex@) && tx_parse(hex_bytes(hex@)) is Some,
            r matches Err(e) ==> {
                &&& *final(self) == *old(self)
                &&& (e == MempoolSerdeError::InvalidHex <==> !hex_ok(hex@))
                &&& (e == MempoolSerdeError::InvalidPayload <==> hex_ok(hex@) && tx_parse(
                    hex_bytes(hex@),
                ) is None)
            },
            r is Ok ==> (tx_parse(hex_bytes(hex@)) matches Some(n) ==> {
                &&& exists|tm: i64|
                    final(self).mempool@.txs == old(self).mempool@.txs.push(
                        TxnV {
                            payload: hex_bytes(hex@).subrange(0, n as int),
                            time: tm,
                            fee_delta: 0i64,
                        },
                    )
                &&& final(self).mempool@.map_deltas == old(self).mempool@.map_deltas
                &&& final(self).mempool@.unbroadcast_txids == old(self).mempool@.unbroadcast_txids
                &&& final(self).mempool.version == old(self).mempool.version
                &&& final(self).selected == Some((old(self).mempool@.txs.len()) as usize)
            }),
    {
        let tm = current_time();
        self.insert_tx_at(hex, tm)
    }
}

} // verus!
