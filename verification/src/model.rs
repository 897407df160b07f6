//! The in-memory model of one snapshot file: the ordered entry sequence, the
//! fee-delta override map and the unbroadcast identifier set.
//!
//! The two keyed collections are backed by vectors so that their iteration
//! order is a pure function of insertion history: serializing the same logical
//! contents twice gives the same bytes.

use vstd::prelude::*;
use crate::txcodec::payload_wf;

verus! {

/// One pending-transaction record: an opaque, self-delimiting transaction
/// payload, its admission time, and a fee priority adjustment.
pub struct Txn {
    /// The protocol-encoded transaction, held verbatim as it sat in the file.
    pub payload: Vec<u8>,
    /// Admission timestamp, seconds since the epoch.
    pub time: i64,
    /// User-assigned fee adjustment.
    pub fee_delta: i64,
}

/// The mathematical value of a `Txn`.
pub ghost struct TxnV {
    pub payload: Seq<u8>,
    pub time: i64,
    pub fee_delta: i64,
}

impl View for Txn {
    type V = TxnV;

    open spec fn view(&self) -> TxnV {
        TxnV { payload: self.payload@, time: self.time, fee_delta: self.fee_delta }
    }
}

/// The entries of a vector of records, as mathematical values, in order.
pub open spec fn txns_view(s: Seq<Txn>) -> Seq<TxnV> {
    s.map_values(|t: Txn| t@)
}

/// A 32-byte transaction identifier.
pub struct TxId {
    pub bytes: Vec<u8>,
}

impl View for TxId {
    type V = Seq<u8>;

    open spec fn view(&self) -> Seq<u8> {
        self.bytes@
    }
}

impl TxId {
    /// An identifier is exactly 32 bytes.
    pub open spec fn wf(&self) -> bool {
        self@.len() == 32
    }
}

/// Compares two identifiers byte for byte.
pub fn txid_eq(a: &TxId, b: &TxId) -> (r: bool)
    ensures
        r <==> a@ == b@,
{
    if a.bytes.len() != b.bytes.len() {
        proof {
            assert(a@ != b@);
        }
        return false;
    }
    let mut i: usize = 0;
    while i < a.bytes.len()
        invariant
            i <= a@.len(),
            a@.len() == b@.len(),
            forall|j: int| 0 <= j < i ==> a@[j] == b@[j],
        decreases a@.len() - i,
    {
        if a.bytes[i] != b.bytes[i] {
            proof {
                assert(a@ != b@);
            }
            return false;
        }
        i = i + 1;
    }
    proof {
        assert(a@ =~= b@);
    }
    true
}

// ----- the fee-delta override map -----

/// What inserting a binding into a keyed pair sequence yields: if the key is
/// already bound the binding is overwritten in place, otherwise it is
/// appended. Last write wins; first insertion fixes the position.
pub open spec fn map_insert(ps: Seq<(Seq<u8>, i64)>, k: Seq<u8>, v: i64) -> Seq<(Seq<u8>, i64)> {
    if exists|i: int| 0 <= i < ps.len() && ps[i].0 == k {
        let i = choose|i: int| 0 <= i < ps.len() && ps[i].0 == k;
        ps.update(i, (k, v))
    } else {
        ps.push((k, v))
    }
}

/// No two bindings share a key.
pub open spec fn keys_distinct(ps: Seq<(Seq<u8>, i64)>) -> bool {
    forall|i: int, j: int| 0 <= i < j < ps.len() ==> (#[trigger] ps[i]).0 != (#[trigger] ps[j]).0
}

/// Every key is a 32-byte identifier.
pub open spec fn keys_wf(ps: Seq<(Seq<u8>, i64)>) -> bool {
    forall|i: int| 0 <= i < ps.len() ==> (#[trigger] ps[i]).0.len() == 32
}

/// Per-identifier fee-delta overrides, in insertion order.
pub struct DeltaMap {
    pub pairs: Vec<(TxId, i64)>,
}

impl View for DeltaMap {
    type V = Seq<(Seq<u8>, i64)>;

    open spec fn view(&self) -> Seq<(Seq<u8>, i64)> {
        self.pairs@.map_values(|p: (TxId, i64)| (p.0@, p.1))
    }
}

impl DeltaMap {
    /// Keys are identifiers and are unique.
    pub open spec fn wf(&self) -> bool {
        keys_wf(self@) && keys_distinct(self@)
    }

    /// An empty map.
    pub fn new() -> (r: DeltaMap)
        ensures
            r@ == Seq::<(Seq<u8>, i64)>::empty(),
            r.wf(),
    {
        let r = DeltaMap { pairs: Vec::new() };
        proof {
            assert(r@ =~= Seq::<(Seq<u8>, i64)>::empty());
        }
        r
    }

    /// How many identifiers carry an override.
    pub fn len(&self) -> (r: usize)
        ensures
            r == self@.len(),
    {
        self.pairs.len()
    }

    /// Binds `k` to `v`: overwrites the binding of `k` in place if there is
    /// one, appends it otherwise.
    pub fn insert(&mut self, k: TxId, v: i64)
        requires
            old(self).wf(),
            k@.len() == 32,
        ensures
            final(self)@ == map_insert(old(self)@, k@, v),
            final(self).wf(),
    {
        let mut i: usize = 0;
        while i < self.pairs.len()
            invariant
                i <= self@.len(),
                self@ == old(self)@,
                self.wf(),
                k@.len() == 32,
                forall|j: int| 0 <= j < i ==> (#[trigger] self@[j]).0 != k@,
            decreases self@.len() - i,
        {
            let ghost ps = self@;
            let hit = txid_eq(&self.pairs[i].0, &k);
            if hit {
                self.pairs.remove(i);
                self.pairs.insert(i, (k, v));
                proof {
                    assert(ps[i as int].0 == k@);
                    assert(exists|w: int| 0 <= w < ps.len() && ps[w].0 == k@);
                    let w = choose|w: int| 0 <= w < ps.len() && ps[w].0 == k@;
                    assert(w == i);
                    assert(self@ =~~= map_insert(ps, k@, v));
                }
                return;
            }
            i = i + 1;
        }
        let ghost ps = self@;
        self.pairs.push((k, v));
        proof {
            assert(self@ =~= ps.push((k@, v)));
            assert(!(exists|w: int| 0 <= w < ps.len() && ps[w].0 == k@));
        }
    }
}

// ----- the unbroadcast identifier set -----

/// What inserting an identifier into an identifier sequence yields: nothing
/// if it is already present, otherwise it is appended.
pub open spec fn set_insert(ids: Seq<Seq<u8>>, k: Seq<u8>) -> Seq<Seq<u8>> {
    if ids.contains(k) {
        ids
    } else {
        ids.push(k)
    }
}

/// No identifier occurs twice.
pub open spec fn ids_distinct(ids: Seq<Seq<u8>>) -> bool {
    forall|i: int, j: int| 0 <= i < j < ids.len() ==> ids[i] != ids[j]
}

/// Every element is a 32-byte identifier.
pub open spec fn ids_wf(ids: Seq<Seq<u8>>) -> bool {
    forall|i: int| 0 <= i < ids.len() ==> (#[trigger] ids[i]).len() == 32
}

/// Identifiers not yet relayed to peers, in insertion order.
pub struct UnbroadcastSet {
    pub ids: Vec<TxId>,
}

impl View for UnbroadcastSet {
    type V = Seq<Seq<u8>>;

    open spec fn view(&self) -> Seq<Seq<u8>> {
        self.ids@.map_values(|t: TxId| t@)
    }
}

impl UnbroadcastSet {
    /// Elements are identifiers and are unique.
    pub open spec fn wf(&self) -> bool {
        ids_wf(self@) && ids_distinct(self@)
    }

    /// An empty set.
    pub fn new() -> (r: UnbroadcastSet)
        ensures
            r@ == Seq::<Seq<u8>>::empty(),
            r.wf(),
    {
        let r = UnbroadcastSet { ids: Vec::new() };
        proof {
            assert(r@ =~= Seq::<Seq<u8>>::empty());
        }
        r
    }

    /// How many identifiers the set holds.
    pub fn len(&self) -> (r: usize)
        ensures
            r == self@.len(),
    {
        self.ids.len()
    }

    /// Inserts `k`: a no-op if it is already present, an append otherwise.
    pub fn insert(&mut self, k: TxId)
        requires
            old(self).wf(),
            k@.len() == 32,
        ensures
            final(self)@ == set_insert(old(self)@, k@),
            final(self).wf(),
    {
        let mut i: usize = 0;
        while i < self.ids.len()
            invariant
                i <= self@.len(),
                self@ == old(self)@,
                self.wf(),
                k@.len() == 32,
                forall|j: int| 0 <= j < i ==> (#[trigger] self@[j]) != k@,
            decreases self@.len() - i,
        {
            let hit = txid_eq(&self.ids[i], &k);
            if hit {
                proof {
                    assert(self@[i as int] == k@);
                    assert(self@.contains(k@));
                    assert(self@ =~= set_insert(old(self)@, k@));
                }
                return;
            }
            i = i + 1;
        }
        let ghost ids = self@;
        self.ids.push(k);
        proof {
            assert(!ids.contains(k@));
            assert(self@ =~= ids.push(k@));
        }
    }
}

// ----- the snapshot aggregate -----

/// The full decoded contents of one snapshot file.
pub struct MempoolSerde {
    /// The file's version tag.
    pub version: u64,
    /// The pool entries, in file order.
    pub txs: Vec<Txn>,
    /// Per-identifier fee-delta overrides.
    pub map_deltas: DeltaMap,
    /// Identifiers not yet relayed to peers.
    pub unbroadcast_txids: UnbroadcastSet,
}

/// The mathematical value of a snapshot.
pub ghost struct MempoolSerdeV {
    pub version: u64,
    pub txs: Seq<TxnV>,
    pub map_deltas: Seq<(Seq<u8>, i64)>,
    pub unbroadcast_txids: Seq<Seq<u8>>,
}

impl View for MempoolSerde {
    type V = MempoolSerdeV;

    open spec fn view(&self) -> MempoolSerdeV {
        MempoolSerdeV {
            version: self.version,
            txs: txns_view(self.txs@),
            map_deltas: self.map_deltas@,
            unbroadcast_txids: self.unbroadcast_txids@,
        }
    }
}

impl MempoolSerde {
    /// Every payload is one well-formed transaction record, and both keyed
    /// collections hold unique 32-byte identifiers.
    pub open spec fn wf(&self) -> bool {
        &&& forall|i: int|
            0 <= i < self@.txs.len() ==> payload_wf((#[trigger] self@.txs[i]).payload)
        &&& self.map_deltas.wf()
        &&& self.unbroadcast_txids.wf()
    }
}

} // verus!
