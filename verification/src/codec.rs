//! Whole-file codec: the layout of the plain snapshot format, its decoder and
//! its encoder, and the round-trip law that ties the two together.
//!
//! Layout, in order: version tag (8 bytes), entry count (8 bytes), that many
//! entries (payload, time, fee delta), override count (varint), that many
//! (identifier, delta) pairs, unbroadcast count (varint), that many
//! identifiers.

use vstd::prelude::*;
use crate::bytes::{
    u64_le, varint_enc, parse_u64, parse_i64, parse_varint, read_u64, read_i64,
    read_varint, write_u64, write_i64, write_varint, append_bytes, copy_range,
    lemma_parse_u64_exact, lemma_parse_i64_exact, lemma_parse_varint_exact,
    lemma_enc_parse_u64, lemma_enc_parse_i64, lemma_enc_parse_varint, lemma_subrange_shift,
};
use crate::model::{
    Txn, TxnV, TxId, DeltaMap, UnbroadcastSet, MempoolSerde, MempoolSerdeV, txns_view,
    map_insert, set_insert, keys_distinct, keys_wf, ids_distinct, ids_wf,
};
use crate::txcodec::{tx_parse, payload_wf, tx_boundary};
use crate::{MempoolSerdeError, MEMPOOL_DUMP_VERSION_NO_XOR_KEY};

verus! {

// ----- what a snapshot file denotes, section by section -----

/// One entry at `pos`: a self-delimiting transaction payload, then the two
/// signed 64-bit metadata fields.
pub open spec fn parse_entry(s: Seq<u8>, pos: int) -> Option<(TxnV, int)> {
    if 0 <= pos <= s.len() {
        match tx_parse(s.subrange(pos, s.len() as int)) {
            Some(n) => {
                if pos + n <= s.len() {
                    match parse_i64(s, pos + n) {
                        Some((time, p2)) => match parse_i64(s, p2) {
                            Some((fee_delta, p3)) => Some(
                                (TxnV { payload: s.subrange(pos, pos + n), time, fee_delta }, p3),
                            ),
                            None => None,
                        },
                        None => None,
                    }
                } else {
                    None
                }
            },
            None => None,
        }
    } else {
        None
    }
}

/// `n` consecutive entries starting at `pos`, in file order.
pub open spec fn parse_entries(s: Seq<u8>, pos: int, n: nat) -> Option<(Seq<TxnV>, int)>
    decreases n,
{
    if n == 0 {
        Some((Seq::empty(), pos))
    } else {
        match parse_entry(s, pos) {
            Some((e, p2)) => match parse_entries(s, p2, (n - 1) as nat) {
                Some((es, p3)) => Some((seq![e] + es, p3)),
                None => None,
            },
            None => None,
        }
    }
}

/// One (identifier, fee delta) pair at `pos`.
pub open spec fn parse_pair(s: Seq<u8>, pos: int) -> Option<((Seq<u8>, i64), int)> {
    if 0 <= pos && pos + 32 <= s.len() {
        match parse_i64(s, pos + 32) {
            Some((d, p2)) => Some(((s.subrange(pos, pos + 32), d), p2)),
            None => None,
        }
    } else {
        None
    }
}

/// `n` consecutive pairs starting at `pos`, in file order, duplicates kept.
pub open spec fn parse_pairs(s: Seq<u8>, pos: int, n: nat) -> Option<(Seq<(Seq<u8>, i64)>, int)>
    decreases n,
{
    if n == 0 {
        Some((Seq::empty(), pos))
    } else {
        match parse_pair(s, pos) {
            Some((p, p2)) => match parse_pairs(s, p2, (n - 1) as nat) {
                Some((ps, p3)) => Some((seq![p] + ps, p3)),
                None => None,
            },
            None => None,
        }
    }
}

/// One 32-byte identifier at `pos`.
pub open spec fn parse_id(s: Seq<u8>, pos: int) -> Option<(Seq<u8>, int)> {
    if 0 <= pos && pos + 32 <= s.len() {
        Some((s.subrange(pos, pos + 32), pos + 32))
    } else {
        None
    }
}

/// `n` consecutive identifiers starting at `pos`, in file order, duplicates kept.
pub open spec fn parse_ids(s: Seq<u8>, pos: int, n: nat) -> Option<(Seq<Seq<u8>>, int)>
    decreases n,
{
    if n == 0 {
        Some((Seq::empty(), pos))
    } else {
        match parse_id(s, pos) {
            Some((k, p2)) => match parse_ids(s, p2, (n - 1) as nat) {
                Some((ks, p3)) => Some((seq![k] + ks, p3)),
                None => None,
            },
            None => None,
        }
    }
}

/// The raw contents of a plain-layout file: every record as it sits in the
/// file, duplicates and all, and the position just past the last section.
pub ghost struct RawFile {
    pub entries: Seq<TxnV>,
    pub pairs: Seq<(Seq<u8>, i64)>,
    pub ids: Seq<Seq<u8>>,
    pub end: int,
}

/// What a whole file denotes: the version tag must be the plain-layout tag,
/// and every section must be complete. Trailing bytes after the last section
/// are tolerated, as the on-disk readers tolerate them.
pub open spec fn parse_file(s: Seq<u8>) -> Option<RawFile> {
    match parse_u64(s, 0) {
        Some((ver, p1)) => if ver == MEMPOOL_DUMP_VERSION_NO_XOR_KEY {
            match parse_u64(s, p1) {
                Some((ec, p2)) => match parse_entries(s, p2, ec as nat) {
                    Some((es, p3)) => match parse_varint(s, p3) {
                        Some((dc, p4)) => match parse_pairs(s, p4, dc as nat) {
                            Some((ps, p5)) => match parse_varint(s, p5) {
                                Some((uc, p6)) => match parse_ids(s, p6, uc as nat) {
                                    Some((ks, p7)) => Some(
                                        RawFile { entries: es, pairs: ps, ids: ks, end: p7 },
                                    ),
                                    None => None,
                                },
                                None => None,
                            },
                            None => None,
                        },
                        None => None,
                    },
                    None => None,
                },
                None => None,
            }
        } else {
            None
        },
        None => None,
    }
}

// ----- what decoding builds out of the raw contents -----

/// Folds the raw pair list into the override map: last write wins.
pub open spec fn build_pairs(raw: Seq<(Seq<u8>, i64)>) -> Seq<(Seq<u8>, i64)>
    decreases raw.len(),
{
    if raw.len() == 0 {
        Seq::empty()
    } else {
        map_insert(build_pairs(raw.drop_last()), raw.last().0, raw.last().1)
    }
}

/// Folds the raw identifier list into the unbroadcast set: repeats are no-ops.
pub open spec fn build_ids(raw: Seq<Seq<u8>>) -> Seq<Seq<u8>>
    decreases raw.len(),
{
    if raw.len() == 0 {
        Seq::empty()
    } else {
        set_insert(build_ids(raw.drop_last()), raw.last())
    }
}

/// The snapshot a parsed file decodes to.
pub open spec fn decoded_model(raw: RawFile) -> MempoolSerdeV {
    MempoolSerdeV {
        version: MEMPOOL_DUMP_VERSION_NO_XOR_KEY,
        txs: raw.entries,
        map_deltas: build_pairs(raw.pairs),
        unbroadcast_txids: build_ids(raw.ids),
    }
}

// ----- the byte string a snapshot serializes to -----

/// The bytes of one entry.
pub open spec fn enc_entry(t: TxnV) -> Seq<u8> {
    t.payload + u64_le(t.time as u64) + u64_le(t.fee_delta as u64)
}

/// The bytes of an entry sequence, in order.
pub open spec fn enc_entries(ts: Seq<TxnV>) -> Seq<u8>
    decreases ts.len(),
{
    if ts.len() == 0 {
        Seq::empty()
    } else {
        enc_entries(ts.drop_last()) + enc_entry(ts.last())
    }
}

/// The bytes of one (identifier, delta) pair.
pub open spec fn enc_pair(p: (Seq<u8>, i64)) -> Seq<u8> {
    p.0 + u64_le(p.1 as u64)
}

/// The bytes of a pair sequence, in order.
pub open spec fn enc_pairs(ps: Seq<(Seq<u8>, i64)>) -> Seq<u8>
    decreases ps.len(),
{
    if ps.len() == 0 {
        Seq::empty()
    } else {
        enc_pairs(ps.drop_last()) + enc_pair(ps.last())
    }
}

/// The bytes of an identifier sequence, in order.
pub open spec fn enc_ids(ks: Seq<Seq<u8>>) -> Seq<u8>
    decreases ks.len(),
{
    if ks.len() == 0 {
        Seq::empty()
    } else {
        enc_ids(ks.drop_last()) + ks.last()
    }
}

/// The bytes of a whole snapshot: its version tag, then the three sections,
/// each behind its count.
pub open spec fn enc_snapshot(m: MempoolSerdeV) -> Seq<u8> {
    u64_le(m.version) + u64_le(m.txs.len() as u64) + enc_entries(m.txs) + varint_enc(
        m.map_deltas.len() as u64,
    ) + enc_pairs(m.map_deltas) + varint_enc(m.unbroadcast_txids.len() as u64) + enc_ids(
        m.unbroadcast_txids,
    )
}

// ----- executable decoding -----

fn read_entries(bytes: &Vec<u8>, pos: usize, n: u64) -> (r: Result<
    (Vec<Txn>, usize),
    MempoolSerdeError,
>)
    requires
        pos <= bytes@.len(),
    ensures
        r matches Ok((txs, end)) ==> {
            &&& parse_entries(bytes@, pos as int, n as nat) == Some(
                (txns_view(txs@), end as int),
            )
            &&& pos <= end <= bytes@.len()
            &&& forall|j: int|
                0 <= j < txs@.len() ==> payload_wf((#[trigger] txns_view(txs@)[j]).payload)
        },
        r matches Err(e) ==> parse_entries(bytes@, pos as int, n as nat) is None && e
            == MempoolSerdeError::Decode,
{
    let mut txs: Vec<Txn> = Vec::new();
    let mut p: usize = pos;
    let mut i: u64 = 0;
    while i < n
        invariant
            i <= n,
            pos <= p <= bytes@.len(),
            txns_view(txs@).len() == i,
            forall|j: int|
                0 <= j < txs@.len() ==> payload_wf((#[trigger] txns_view(txs@)[j]).payload),
            parse_entries(bytes@, p as int, (n - i) as nat) matches Some((es, e2))
                ==> parse_entries(bytes@, pos as int, n as nat) == Some(
                (txns_view(txs@) + es, e2),
            ),
            parse_entries(bytes@, p as int, (n - i) as nat) is None ==> parse_entries(
                bytes@,
                pos as int,
                n as nat,
            ) is None,
        decreases n - i,
    {
        let ghost txs0 = txs@;
        let ghost p0 = p as int;
        let ghost n0 = (n - i) as nat;
        let bnd = tx_boundary(bytes, p);
        match bnd {
            None => {
                proof {
                    assert(parse_entry(bytes@, p0) is None);
                    assert(parse_entries(bytes@, p0, n0) is None);
                }
                return Err(MempoolSerdeError::Decode);
            },
            Some(len) => {
                let bl = bytes.len();
                proof {
                    assert(p + len <= bl);
                }
                let payload = copy_range(bytes, p, p + len);
                let p1 = p + len;
                match read_i64(bytes, p1) {
                    None => {
                        proof {
                            assert(parse_entry(bytes@, p0) is None);
                            assert(parse_entries(bytes@, p0, n0) is None);
                        }
                        return Err(MempoolSerdeError::Decode);
                    },
                    Some((time, p2)) => {
                        match read_i64(bytes, p2) {
                            None => {
                                proof {
                                    assert(parse_entry(bytes@, p0) is None);
                                    assert(parse_entries(bytes@, p0, n0) is None);
                                }
                                return Err(MempoolSerdeError::Decode);
                            },
                            Some((fd, p3)) => {
                                let t = Txn { payload, time, fee_delta: fd };
                                proof {
                                    assert(parse_entry(bytes@, p0) == Some((t@, p3 as int)));
                                }
                                txs.push(t);
                                p = p3;
                                i = i + 1;
                                proof {
                                    assert(txns_view(txs@) =~= txns_view(txs0) + seq![t@]);
                                    match parse_entries(bytes@, p as int, (n - i) as nat) {
                                        Some((es, e2)) => {
                                            assert(parse_entries(bytes@, p0, n0) == Some(
                                                (seq![t@] + es, e2),
                                            ));
                                            assert(txns_view(txs0) + (seq![t@] + es) =~= txns_view(
                                                txs@,
                                            ) + es);
                                        },
                                        None => {
                                            assert(parse_entries(bytes@, p0, n0) is None);
                                        },
                                    }
                                }
                            },
                        }
                    },
                }
            },
        }
    }
    proof {
        assert(parse_entries(bytes@, p as int, 0) == Some((Seq::<TxnV>::empty(), p as int)));
        assert(txns_view(txs@) + Seq::<TxnV>::empty() =~= txns_view(txs@));
    }
    Ok((txs, p))
}

fn read_pairs(bytes: &Vec<u8>, pos: usize, n: u64) -> (r: Result<
    (DeltaMap, usize),
    MempoolSerdeError,
>)
    requires
        pos <= bytes@.len(),
    ensures
        r matches Ok((dm, end)) ==> {
            &&& parse_pairs(bytes@, pos as int, n as nat) matches Some((raw, e2)) && e2
                == end as int && dm@ == build_pairs(raw)
            &&& pos <= end <= bytes@.len()
            &&& dm.wf()
        },
        r matches Err(e) ==> parse_pairs(bytes@, pos as int, n as nat) is None && e
            == MempoolSerdeError::Decode,
{
    let mut dm = DeltaMap::new();
    let ghost mut raw_acc: Seq<(Seq<u8>, i64)> = Seq::empty();
    let mut p: usize = pos;
    let mut i: u64 = 0;
    proof {
        assert(build_pairs(raw_acc) =~= Seq::<(Seq<u8>, i64)>::empty());
    }
    while i < n
        invariant
            i <= n,
            pos <= p <= bytes@.len(),
            dm@ == build_pairs(raw_acc),
            dm.wf(),
            parse_pairs(bytes@, p as int, (n - i) as nat) matches Some((ps, e2)) ==> parse_pairs(
                bytes@,
                pos as int,
                n as nat,
            ) == Some((raw_acc + ps, e2)),
            parse_pairs(bytes@, p as int, (n - i) as nat) is None ==> parse_pairs(
                bytes@,
                pos as int,
                n as nat,
            ) is None,
        decreases n - i,
    {
        let ghost raw0 = raw_acc;
        let ghost p0 = p as int;
        let ghost n0 = (n - i) as nat;
        if bytes.len() - p < 32 {
            proof {
                assert(parse_pair(bytes@, p0) is None);
                assert(parse_pairs(bytes@, p0, n0) is None);
            }
            return Err(MempoolSerdeError::Decode);
        }
        let idb = copy_range(bytes, p, p + 32);
        let id = TxId { bytes: idb };
        match read_i64(bytes, p + 32) {
            None => {
                proof {
                    assert(parse_pair(bytes@, p0) is None);
                    assert(parse_pairs(bytes@, p0, n0) is None);
                }
                return Err(MempoolSerdeError::Decode);
            },
            Some((d, p2)) => {
                proof {
                    assert(parse_pair(bytes@, p0) == Some(((id@, d), p2 as int)));
                }
                dm.insert(id, d);
                proof {
                    raw_acc = raw0.push((bytes@.subrange(p0, p0 + 32), d));
                    assert(raw_acc.drop_last() =~= raw0);
                    assert(build_pairs(raw_acc) == map_insert(
                        build_pairs(raw0),
                        raw_acc.last().0,
                        raw_acc.last().1,
                    ));
                }
                p = p2;
                i = i + 1;
                proof {
                    match parse_pairs(bytes@, p as int, (n - i) as nat) {
                        Some((ps, e2)) => {
                            assert(parse_pairs(bytes@, p0, n0) == Some(
                                (seq![raw_acc.last()] + ps, e2),
                            ));
                            assert(raw0 + (seq![raw_acc.last()] + ps) =~= raw_acc + ps);
                        },
                        None => {
                            assert(parse_pairs(bytes@, p0, n0) is None);
                        },
                    }
                }
            },
        }
    }
    proof {
        assert(parse_pairs(bytes@, p as int, 0) == Some(
            (Seq::<(Seq<u8>, i64)>::empty(), p as int),
        ));
        assert(raw_acc + Seq::<(Seq<u8>, i64)>::empty() =~= raw_acc);
    }
    Ok((dm, p))
}

fn read_ids(bytes: &Vec<u8>, pos: usize, n: u64) -> (r: Result<
    (UnbroadcastSet, usize),
    MempoolSerdeError,
>)
    requires
        pos <= bytes@.len(),
    ensures
        r matches Ok((us, end)) ==> {
            &&& parse_ids(bytes@, pos as int, n as nat) matches Some((raw, e2)) && e2 == end as int
                && us@ == build_ids(raw)
            &&& pos <= end <= bytes@.len()
            &&& us.wf()
        },
        r matches Err(e) ==> parse_ids(bytes@, pos as int, n as nat) is None && e
            == MempoolSerdeError::Decode,
{
    let mut us = UnbroadcastSet::new();
    let ghost mut raw_acc: Seq<Seq<u8>> = Seq::empty();
    let mut p: usize = pos;
    let mut i: u64 = 0;
    proof {
        assert(build_ids(raw_acc) =~= Seq::<Seq<u8>>::empty());
    }
    while i < n
        invariant
            i <= n,
            pos <= p <= bytes@.len(),
            us@ == build_ids(raw_acc),
            us.wf(),
            parse_ids(bytes@, p as int, (n - i) as nat) matches Some((ks, e2)) ==> parse_ids(
                bytes@,
                pos as int,
                n as nat,
            ) == Some((raw_acc + ks, e2)),
            parse_ids(bytes@, p as int, (n - i) as nat) is None ==> parse_ids(
                bytes@,
                pos as int,
                n as nat,
            ) is None,
        decreases n - i,
    {
        let ghost raw0 = raw_acc;
        let ghost p0 = p as int;
        let ghost n0 = (n - i) as nat;
        if bytes.len() - p < 32 {
            proof {
                assert(parse_id(bytes@, p0) is None);
                assert(parse_ids(bytes@, p0, n0) is None);
            }
            return Err(MempoolSerdeError::Decode);
        }
        let idb = copy_range(bytes, p, p + 32);
        let id = TxId { bytes: idb };
        proof {
            assert(parse_id(bytes@, p0) == Some((id@, p0 + 32)));
        }
        us.insert(id);
        proof {
            raw_acc = raw0.push(bytes@.subrange(p0, p0 + 32));
            assert(raw_acc.drop_last() =~= raw0);
            assert(build_ids(raw_acc) == set_insert(build_ids(raw0), raw_acc.last()));
        }
        p = p + 32;
        i = i + 1;
        proof {
            match parse_ids(bytes@, p as int, (n - i) as nat) {
                Some((ks, e2)) => {
                    assert(parse_ids(bytes@, p0, n0) == Some((seq![raw_acc.last()] + ks, e2)));
                    assert(raw0 + (seq![raw_acc.last()] + ks) =~= raw_acc + ks);
                },
                None => {
                    assert(parse_ids(bytes@, p0, n0) is None);
                },
            }
        }
    }
    proof {
        assert(parse_ids(bytes@, p as int, 0) == Some((Seq::<Seq<u8>>::empty(), p as int)));
        assert(raw_acc + Seq::<Seq<u8>>::empty() =~= raw_acc);
    }
    Ok((us, p))
}

impl MempoolSerde {
    /// Decodes a whole snapshot file.
    ///
    /// Succeeds exactly on the byte strings the plain layout gives a meaning
    /// to; a version tag other than the plain-layout tag is refused as
    /// unsupported, and any truncated or malformed content is refused without
    /// returning a partial snapshot.
    pub fn from_bytes(bytes: &Vec<u8>) -> (r: crate::MempoolResult<MempoolSerde>)
        ensures
            r is Ok <==> parse_file(bytes@) is Some,
            r matches Ok(m) ==> parse_file(bytes@) matches Some(raw) && m@ == decoded_model(raw)
                && m.wf() && m.version == MEMPOOL_DUMP_VERSION_NO_XOR_KEY,
            parse_u64(bytes@, 0) matches Some((w, p1)) ==> (w != MEMPOOL_DUMP_VERSION_NO_XOR_KEY
                ==> r == Err::<MempoolSerde, MempoolSerdeError>(
                MempoolSerdeError::UnsupportedVersion(w),
            )),
            r matches Err(e) ==> (e == MempoolSerdeError::Decode || (parse_u64(
                bytes@,
                0,
            ) matches Some((w, p1)) && w != MEMPOOL_DUMP_VERSION_NO_XOR_KEY && e
                == MempoolSerdeError::UnsupportedVersion(w))),
    {
        let version = match read_u64(bytes, 0) {
            None => {
                return Err(MempoolSerdeError::Decode);
            },
            Some((v, _)) => v,
        };
        if version != MEMPOOL_DUMP_VERSION_NO_XOR_KEY {
            return Err(MempoolSerdeError::UnsupportedVersion(version));
        }
        let (ec, p2) = match read_u64(bytes, 8) {
            None => {
                return Err(MempoolSerdeError::Decode);
            },
            Some(r) => r,
        };
        let (txs, p3) = match read_entries(bytes, p2, ec) {
            Err(e) => {
                return Err(e);
            },
            Ok(r) => r,
        };
        let (dc, p4) = match read_varint(bytes, p3) {
            None => {
                return Err(MempoolSerdeError::Decode);
            },
            Some(r) => r,
        };
        let (dm, p5) = match read_pairs(bytes, p4, dc) {
            Err(e) => {
                return Err(e);
            },
            Ok(r) => r,
        };
        let (uc, p6) = match read_varint(bytes, p5) {
            None => {
                return Err(MempoolSerdeError::Decode);
            },
            Some(r) => r,
        };
        let (us, p7) = match read_ids(bytes, p6, uc) {
            Err(e) => {
                return Err(e);
            },
            Ok(r) => r,
        };
        let m = MempoolSerde { version, txs, map_deltas: dm, unbroadcast_txids: us };
        proof {
            assert(parse_file(bytes@) matches Some(raw) && m@ == decoded_model(raw));
        }
        Ok(m)
    }

    /// Serializes the snapshot back to bytes. Cannot fail; the `Result` is
    /// kept for interface stability with callers that treat saving as
    /// fallible.
    pub fn to_bytes(&self) -> (r: crate::MempoolResult<Vec<u8>>)
        ensures
            r matches Ok(b) && b@ == enc_snapshot(self@),
    {
        let mut buf: Vec<u8> = Vec::new();
        write_u64(&mut buf, self.version);
        write_u64(&mut buf, self.txs.len() as u64);
        let ghost hdr = u64_le(self@.version) + u64_le(self@.txs.len() as u64);
        proof {
            assert(buf@ =~= hdr + enc_entries(self@.txs.take(0)));
        }
        let mut i: usize = 0;
        while i < self.txs.len()
            invariant
                i <= self.txs@.len(),
                self@.txs.len() == self.txs@.len(),
                buf@ == hdr + enc_entries(self@.txs.take(i as int)),
            decreases self.txs@.len() - i,
        {
            let t = &self.txs[i];
            append_bytes(&mut buf, &t.payload);
            write_i64(&mut buf, t.time);
            write_i64(&mut buf, t.fee_delta);
            i = i + 1;
            proof {
                assert(self@.txs.take(i as int).drop_last() =~= self@.txs.take(i - 1));
                assert(self@.txs.take(i as int).last() == self@.txs[i - 1]);
                assert(buf@ =~= hdr + enc_entries(self@.txs.take(i as int)));
            }
        }
        proof {
            assert(self@.txs.take(self.txs@.len() as int) =~= self@.txs);
        }
        let ghost hdr2 = buf@ + varint_enc(self@.map_deltas.len() as u64);
        write_varint(&mut buf, self.map_deltas.len() as u64);
        proof {
            assert(buf@ =~= hdr2 + enc_pairs(self@.map_deltas.take(0)));
        }
        let mut i: usize = 0;
        while i < self.map_deltas.pairs.len()
            invariant
                i <= self.map_deltas.pairs@.len(),
                self@.map_deltas.len() == self.map_deltas.pairs@.len(),
                buf@ == hdr2 + enc_pairs(self@.map_deltas.take(i as int)),
            decreases self.map_deltas.pairs@.len() - i,
        {
            let pr = &self.map_deltas.pairs[i];
            append_bytes(&mut buf, &pr.0.bytes);
            write_i64(&mut buf, pr.1);
            i = i + 1;
            proof {
                assert(self@.map_deltas.take(i as int).drop_last() =~= self@.map_deltas.take(
                    i - 1,
                ));
                assert(self@.map_deltas.take(i as int).last() == self@.map_deltas[i - 1]);
                assert(buf@ =~= hdr2 + enc_pairs(self@.map_deltas.take(i as int)));
            }
        }
        proof {
            assert(self@.map_deltas.take(self.map_deltas.pairs@.len() as int)
                =~= self@.map_deltas);
        }
        let ghost hdr3 = buf@ + varint_enc(self@.unbroadcast_txids.len() as u64);
        write_varint(&mut buf, self.unbroadcast_txids.len() as u64);
        proof {
            assert(buf@ =~= hdr3 + enc_ids(self@.unbroadcast_txids.take(0)));
        }
        let mut i: usize = 0;
        while i < self.unbroadcast_txids.ids.len()
            invariant
                i <= self.unbroadcast_txids.ids@.len(),
                self@.unbroadcast_txids.len() == self.unbroadcast_txids.ids@.len(),
                buf@ == hdr3 + enc_ids(self@.unbroadcast_txids.take(i as int)),
            decreases self.unbroadcast_txids.ids@.len() - i,
        {
            let id = &self.unbroadcast_txids.ids[i];
            append_bytes(&mut buf, &id.bytes);
            i = i + 1;
            proof {
                assert(self@.unbroadcast_txids.take(i as int).drop_last()
                    =~= self@.unbroadcast_txids.take(i - 1));
                assert(self@.unbroadcast_txids.take(i as int).last() == self@.unbroadcast_txids[i
                    - 1]);
                assert(buf@ =~= hdr3 + enc_ids(self@.unbroadcast_txids.take(i as int)));
            }
        }
        proof {
            assert(self@.unbroadcast_txids.take(self.unbroadcast_txids.ids@.len() as int)
                =~= self@.unbroadcast_txids);
            assert(buf@ =~= enc_snapshot(self@));
        }
        Ok(buf)
    }
}

// ----- the round-trip law: parsed bytes re-encode to themselves -----

/// Prepending one entry to a sequence prepends its bytes.
proof fn lemma_enc_entries_cons(e: TxnV, es: Seq<TxnV>)
    ensures
        enc_entries(seq![e] + es) == enc_entry(e) + enc_entries(es),
    decreases es.len(),
{
    let c = seq![e] + es;
    if es.len() == 0 {
        assert(c.drop_last() =~= es);
        assert(c.last() == e);
        assert(enc_entries(es) == Seq::<u8>::empty());
        assert(enc_entries(c) == enc_entries(es) + enc_entry(e));
        assert(Seq::<u8>::empty() + enc_entry(e) =~= enc_entry(e) + Seq::<u8>::empty());
    } else {
        lemma_enc_entries_cons(e, es.drop_last());
        assert(c.drop_last() =~= seq![e] + es.drop_last());
        assert(c.last() == es.last());
        assert(enc_entries(c) == (enc_entry(e) + enc_entries(es.drop_last())) + enc_entry(
            es.last(),
        ));
        assert((enc_entry(e) + enc_entries(es.drop_last())) + enc_entry(es.last()) =~= enc_entry(e)
            + (enc_entries(es.drop_last()) + enc_entry(es.last())));
    }
}

/// Prepending one pair to a sequence prepends its bytes.
proof fn lemma_enc_pairs_cons(p: (Seq<u8>, i64), ps: Seq<(Seq<u8>, i64)>)
    ensures
        enc_pairs(seq![p] + ps) == enc_pair(p) + enc_pairs(ps),
    decreases ps.len(),
{
    let c = seq![p] + ps;
    if ps.len() == 0 {
        assert(c.drop_last() =~= ps);
        assert(c.last() == p);
        assert(enc_pairs(ps) == Seq::<u8>::empty());
        assert(enc_pairs(c) == enc_pairs(ps) + enc_pair(p));
        assert(Seq::<u8>::empty() + enc_pair(p) =~= enc_pair(p) + Seq::<u8>::empty());
    } else {
        lemma_enc_pairs_cons(p, ps.drop_last());
        assert(c.drop_last() =~= seq![p] + ps.drop_last());
        assert(c.last() == ps.last());
        assert(enc_pairs(c) == (enc_pair(p) + enc_pairs(ps.drop_last())) + enc_pair(ps.last()));
        assert((enc_pair(p) + enc_pairs(ps.drop_last())) + enc_pair(ps.last()) =~= enc_pair(p)
            + (enc_pairs(ps.drop_last()) + enc_pair(ps.last())));
    }
}

/// Prepending one identifier to a sequence prepends its bytes.
proof fn lemma_enc_ids_cons(k: Seq<u8>, ks: Seq<Seq<u8>>)
    ensures
        enc_ids(seq![k] + ks) == k + enc_ids(ks),
    decreases ks.len(),
{
    let c = seq![k] + ks;
    if ks.len() == 0 {
        assert(c.drop_last() =~= ks);
        assert(c.last() == k);
        assert(enc_ids(ks) == Seq::<u8>::empty());
        assert(enc_ids(c) == enc_ids(ks) + k);
        assert(Seq::<u8>::empty() + k =~= k + Seq::<u8>::empty());
    } else {
        lemma_enc_ids_cons(k, ks.drop_last());
        assert(c.drop_last() =~= seq![k] + ks.drop_last());
        assert(c.last() == ks.last());
        assert(enc_ids(c) == (k + enc_ids(ks.drop_last())) + ks.last());
        assert((k + enc_ids(ks.drop_last())) + ks.last() =~= k + (enc_ids(ks.drop_last())
            + ks.last()));
    }
}

/// A parsed entry re-encodes to exactly the bytes it was read from.
proof fn lemma_parse_entry_exact(s: Seq<u8>, pos: int)
    ensures
        parse_entry(s, pos) matches Some((e, end)) ==> {
            &&& pos <= end <= s.len()
            &&& enc_entry(e) == s.subrange(pos, end)
        },
{
    match parse_entry(s, pos) {
        Some((e, end)) => {
            match tx_parse(s.subrange(pos, s.len() as int)) {
                Some(n) => {
                    lemma_parse_i64_exact(s, pos + n);
                    lemma_parse_i64_exact(s, pos + n + 8);
                    assert(s.subrange(pos, end) =~= s.subrange(pos, pos + n) + s.subrange(
                        pos + n,
                        pos + n + 8,
                    ) + s.subrange(pos + n + 8, pos + n + 16));
                },
                None => (),
            }
        },
        None => (),
    }
}

/// A parsed entry section re-encodes to exactly the bytes it was read from,
/// and holds exactly the announced number of entries.
proof fn lemma_parse_entries_exact(s: Seq<u8>, pos: int, n: nat)
    requires
        0 <= pos <= s.len(),
    ensures
        parse_entries(s, pos, n) matches Some((es, end)) ==> {
            &&& pos <= end <= s.len()
            &&& es.len() == n
            &&& enc_entries(es) == s.subrange(pos, end)
        },
    decreases n,
{
    if n == 0 {
        assert(enc_entries(Seq::<TxnV>::empty()) =~= s.subrange(pos, pos));
    } else {
        match parse_entry(s, pos) {
            Some((e, p2)) => {
                lemma_parse_entry_exact(s, pos);
                lemma_parse_entries_exact(s, p2, (n - 1) as nat);
                match parse_entries(s, p2, (n - 1) as nat) {
                    Some((es2, end)) => {
                        lemma_enc_entries_cons(e, es2);
                        assert(enc_entries(seq![e] + es2) =~= s.subrange(pos, end));
                    },
                    None => (),
                }
            },
            None => (),
        }
    }
}

/// A parsed pair section re-encodes to exactly the bytes it was read from;
/// its keys are 32-byte identifiers and it holds the announced number of
/// pairs.
proof fn lemma_parse_pairs_exact(s: Seq<u8>, pos: int, n: nat)
    requires
        0 <= pos <= s.len(),
    ensures
        parse_pairs(s, pos, n) matches Some((ps, end)) ==> {
            &&& pos <= end <= s.len()
            &&& ps.len() == n
            &&& keys_wf(ps)
            &&& enc_pairs(ps) == s.subrange(pos, end)
        },
    decreases n,
{
    if n == 0 {
        assert(enc_pairs(Seq::<(Seq<u8>, i64)>::empty()) =~= s.subrange(pos, pos));
    } else {
        match parse_pair(s, pos) {
            Some((p, p2)) => {
                lemma_parse_i64_exact(s, pos + 32);
                assert(enc_pair(p) =~= s.subrange(pos, p2));
                lemma_parse_pairs_exact(s, p2, (n - 1) as nat);
                match parse_pairs(s, p2, (n - 1) as nat) {
                    Some((ps2, end)) => {
                        lemma_enc_pairs_cons(p, ps2);
                        assert(enc_pairs(seq![p] + ps2) =~= s.subrange(pos, end));
                        assert(keys_wf(seq![p] + ps2));
                    },
                    None => (),
                }
            },
            None => (),
        }
    }
}

/// A parsed identifier section re-encodes to exactly the bytes it was read
/// from; its elements are 32-byte identifiers and it holds the announced
/// number of them.
proof fn lemma_parse_ids_exact(s: Seq<u8>, pos: int, n: nat)
    requires
        0 <= pos <= s.len(),
    ensures
        parse_ids(s, pos, n) matches Some((ks, end)) ==> {
            &&& pos <= end <= s.len()
            &&& ks.len() == n
            &&& ids_wf(ks)
            &&& enc_ids(ks) == s.subrange(pos, end)
        },
    decreases n,
{
    if n == 0 {
        assert(enc_ids(Seq::<Seq<u8>>::empty()) =~= s.subrange(pos, pos));
    } else {
        match parse_id(s, pos) {
            Some((k, p2)) => {
                lemma_parse_ids_exact(s, p2, (n - 1) as nat);
                match parse_ids(s, p2, (n - 1) as nat) {
                    Some((ks2, end)) => {
                        lemma_enc_ids_cons(k, ks2);
                        assert(enc_ids(seq![k] + ks2) =~= s.subrange(pos, end));
                        assert(ids_wf(seq![k] + ks2));
                    },
                    None => (),
                }
            },
            None => (),
        }
    }
}

/// When no key repeats, folding the raw pair list into the map keeps it
/// verbatim: every insertion is an append.
pub proof fn lemma_build_pairs_distinct(raw: Seq<(Seq<u8>, i64)>)
    requires
        keys_distinct(raw),
    ensures
        build_pairs(raw) == raw,
    decreases raw.len(),
{
    if raw.len() == 0 {
        assert(build_pairs(raw) =~= raw);
    } else {
        let front = raw.drop_last();
        assert(keys_distinct(front));
        lemma_build_pairs_distinct(front);
        assert(forall|i: int|
            0 <= i < front.len() ==> (#[trigger] front[i]).0 == raw[i].0 && raw[i].0
                != raw.last().0);
        assert(!(exists|i: int| 0 <= i < front.len() && front[i].0 == raw.last().0));
        assert(build_pairs(raw) == front.push((raw.last().0, raw.last().1)));
        assert(front.push((raw.last().0, raw.last().1)) =~= raw);
    }
}

/// When no identifier repeats, folding the raw identifier list into the set
/// keeps it verbatim.
pub proof fn lemma_build_ids_distinct(raw: Seq<Seq<u8>>)
    requires
        ids_distinct(raw),
    ensures
        build_ids(raw) == raw,
    decreases raw.len(),
{
    if raw.len() == 0 {
        assert(build_ids(raw) =~= raw);
    } else {
        let front = raw.drop_last();
        assert(ids_distinct(front));
        lemma_build_ids_distinct(front);
        assert(forall|i: int| 0 <= i < front.len() ==> #[trigger] front[i] != raw.last());
        assert(!front.contains(raw.last()));
        assert(front.push(raw.last()) =~= raw);
    }
}

/// Round-trip identity: a file that decodes, whose override keys and
/// unbroadcast identifiers are unique and which has no trailing bytes,
/// is reproduced byte for byte by serializing the snapshot it decodes to.
#[verifier::rlimit(100)]
pub proof fn lemma_parse_file_roundtrip(s: Seq<u8>, raw: RawFile)
    requires
        parse_file(s) == Some(raw),
        keys_distinct(raw.pairs),
        ids_distinct(raw.ids),
        raw.end == s.len(),
    ensures
        enc_snapshot(decoded_model(raw)) == s,
{
    lemma_build_pairs_distinct(raw.pairs);
    lemma_build_ids_distinct(raw.ids);
    let (ver, p1) = parse_u64(s, 0)->Some_0;
    let (ec, p2) = parse_u64(s, p1)->Some_0;
    let (es, p3) = parse_entries(s, p2, ec as nat)->Some_0;
    let (dc, p4) = parse_varint(s, p3)->Some_0;
    let (ps, p5) = parse_pairs(s, p4, dc as nat)->Some_0;
    let (uc, p6) = parse_varint(s, p5)->Some_0;
    let (ks, p7) = parse_ids(s, p6, uc as nat)->Some_0;
    lemma_parse_u64_exact(s, 0);
    lemma_parse_u64_exact(s, p1);
    lemma_parse_entries_exact(s, p2, ec as nat);
    lemma_parse_varint_exact(s, p3);
    lemma_parse_pairs_exact(s, p4, dc as nat);
    lemma_parse_varint_exact(s, p5);
    lemma_parse_ids_exact(s, p6, uc as nat);
    let m = decoded_model(raw);
    assert(m.txs.len() as u64 == ec);
    assert(m.map_deltas.len() as u64 == dc);
    assert(m.unbroadcast_txids.len() as u64 == uc);
    assert(u64_le(m.version) == s.subrange(0, p1));
    assert(u64_le(m.txs.len() as u64) == s.subrange(p1, p2));
    assert(enc_entries(m.txs) == s.subrange(p2, p3));
    assert(varint_enc(m.map_deltas.len() as u64) == s.subrange(p3, p4));
    assert(enc_pairs(m.map_deltas) == s.subrange(p4, p5));
    assert(varint_enc(m.unbroadcast_txids.len() as u64) == s.subrange(p5, p6));
    assert(enc_ids(m.unbroadcast_txids) == s.subrange(p6, p7));
    assert(s.subrange(0, p1) + s.subrange(p1, p2) =~= s.subrange(0, p2));
    assert(s.subrange(0, p2) + s.subrange(p2, p3) =~= s.subrange(0, p3));
    assert(s.subrange(0, p3) + s.subrange(p3, p4) =~= s.subrange(0, p4));
    assert(s.subrange(0, p4) + s.subrange(p4, p5) =~= s.subrange(0, p5));
    assert(s.subrange(0, p5) + s.subrange(p5, p6) =~= s.subrange(0, p6));
    assert(s.subrange(0, p6) + s.subrange(p6, p7) =~= s.subrange(0, p7));
    assert(s.subrange(0, p7) =~= s);
}

// ----- the other direction: encoded snapshots parse back verbatim -----

/// Where the encoding of a well-formed entry sits, the parser finds the entry.
proof fn lemma_enc_parse_entry(s: Seq<u8>, pos: int, e: TxnV)
    requires
        0 <= pos,
        pos + enc_entry(e).len() <= s.len(),
        s.subrange(pos, pos + enc_entry(e).len() as int) == enc_entry(e),
        payload_wf(e.payload),
    ensures
        parse_entry(s, pos) == Some((e, pos + enc_entry(e).len())),
{
    let a = e.payload;
    let b = u64_le(e.time as u64);
    let c = u64_le(e.fee_delta as u64);
    let all = enc_entry(e);
    let pl = a.len() as int;
    assert(all.len() == pl + 16);
    assert forall|j: int| 0 <= j < pl implies all.subrange(0, pl)[j] == a[j] by {
        assert(((a + b) + c)[j] == (a + b)[j]);
        assert((a + b)[j] == a[j]);
    }
    assert(all.subrange(0, pl) =~= a);
    assert forall|j: int| 0 <= j < 8 implies all.subrange(pl, pl + 8)[j] == b[j] by {
        assert(((a + b) + c)[pl + j] == (a + b)[pl + j]);
        assert((a + b)[pl + j] == b[j]);
    }
    assert(all.subrange(pl, pl + 8) =~= b);
    assert forall|j: int| 0 <= j < 8 implies all.subrange(pl + 8, pl + 16)[j] == c[j] by {
        assert(((a + b) + c)[pl + 8 + j] == c[j]);
    }
    assert(all.subrange(pl + 8, pl + 16) =~= c);
    lemma_subrange_shift(s, pos, all, 0, pl);
    lemma_subrange_shift(s, pos, all, pl, pl + 8);
    lemma_subrange_shift(s, pos, all, pl + 8, pl + 16);
    let suffix = s.subrange(pos, s.len() as int);
    assert forall|j: int| 0 <= j < pl implies suffix.subrange(0, pl)[j] == a[j] by {
        assert(suffix.subrange(0, pl)[j] == suffix[j]);
        assert(suffix[j] == s[pos + j]);
        assert(s.subrange(pos, pos + pl)[j] == s[pos + j]);
    }
    assert(suffix.subrange(0, pl) =~= a);
    assert(suffix.len() >= a.len());
    assert(tx_parse(suffix) == Some(a.len()));
    lemma_enc_parse_i64(s, pos + pl, e.time);
    lemma_enc_parse_i64(s, pos + pl + 8, e.fee_delta);
    assert(parse_entry(s, pos) == Some((e, pos + all.len())));
}

/// Where the encoding of a well-formed entry sequence sits, the parser finds
/// every entry, in order.
proof fn lemma_enc_parse_entries(s: Seq<u8>, pos: int, ts: Seq<TxnV>)
    requires
        0 <= pos,
        pos + enc_entries(ts).len() <= s.len(),
        s.subrange(pos, pos + enc_entries(ts).len() as int) == enc_entries(ts),
        forall|i: int| 0 <= i < ts.len() ==> payload_wf((#[trigger] ts[i]).payload),
    ensures
        parse_entries(s, pos, ts.len()) == Some((ts, pos + enc_entries(ts).len())),
    decreases ts.len(),
{
    if ts.len() == 0 {
        assert(ts =~= Seq::<TxnV>::empty());
    } else {
        let h = ts[0];
        let rest = ts.drop_first();
        assert(ts =~= seq![h] + rest);
        lemma_enc_entries_cons(h, rest);
        let hb = enc_entry(h);
        let rb = enc_entries(rest);
        let all = enc_entries(ts);
        assert(all == hb + rb);
        let hl = hb.len() as int;
        let el = all.len() as int;
        assert forall|j: int| 0 <= j < hl implies all.subrange(0, hl)[j] == hb[j] by {
            assert((hb + rb)[j] == hb[j]);
        }
        assert(all.subrange(0, hl) =~= hb);
        assert forall|j: int| 0 <= j < el - hl implies all.subrange(hl, el)[j] == rb[j] by {
            assert((hb + rb)[hl + j] == rb[j]);
        }
        assert(all.subrange(hl, el) =~= rb);
        lemma_subrange_shift(s, pos, all, 0, hl);
        lemma_subrange_shift(s, pos, all, hl, el);
        lemma_enc_parse_entry(s, pos, h);
        assert(forall|i: int| 0 <= i < rest.len() ==> payload_wf((#[trigger] rest[i]).payload));
        lemma_enc_parse_entries(s, pos + hl, rest);
        assert(parse_entries(s, pos, ts.len()) == Some((seq![h] + rest, pos + el)));
    }
}

/// Where the encoding of a pair sequence sits, the parser finds every pair,
/// in order.
proof fn lemma_enc_parse_pairs(s: Seq<u8>, pos: int, ps: Seq<(Seq<u8>, i64)>)
    requires
        0 <= pos,
        pos + enc_pairs(ps).len() <= s.len(),
        s.subrange(pos, pos + enc_pairs(ps).len() as int) == enc_pairs(ps),
        keys_wf(ps),
    ensures
        parse_pairs(s, pos, ps.len()) == Some((ps, pos + enc_pairs(ps).len())),
    decreases ps.len(),
{
    if ps.len() == 0 {
        assert(ps =~= Seq::<(Seq<u8>, i64)>::empty());
    } else {
        let h = ps[0];
        let rest = ps.drop_first();
        assert(ps =~= seq![h] + rest);
        lemma_enc_pairs_cons(h, rest);
        let hb = enc_pair(h);
        let rb = enc_pairs(rest);
        let all = enc_pairs(ps);
        assert(all == hb + rb);
        let k = h.0;
        let d = u64_le(h.1 as u64);
        assert(k.len() == 32);
        let el = all.len() as int;
        assert forall|j: int| 0 <= j < 32 implies all.subrange(0, 32)[j] == k[j] by {
            assert((hb + rb)[j] == hb[j]);
            assert((k + d)[j] == k[j]);
        }
        assert(all.subrange(0, 32) =~= k);
        assert forall|j: int| 0 <= j < 8 implies all.subrange(32, 40)[j] == d[j] by {
            assert((hb + rb)[32 + j] == hb[32 + j]);
            assert((k + d)[32 + j] == d[j]);
        }
        assert(all.subrange(32, 40) =~= d);
        assert forall|j: int| 0 <= j < el - 40 implies all.subrange(40, el)[j] == rb[j] by {
            assert((hb + rb)[40 + j] == rb[j]);
        }
        assert(all.subrange(40, el) =~= rb);
        lemma_subrange_shift(s, pos, all, 0, 32);
        lemma_subrange_shift(s, pos, all, 32, 40);
        lemma_subrange_shift(s, pos, all, 40, el);
        lemma_enc_parse_i64(s, pos + 32, h.1);
        assert(parse_pair(s, pos) == Some((h, pos + 40)));
        assert(keys_wf(rest));
        lemma_enc_parse_pairs(s, pos + 40, rest);
        assert(parse_pairs(s, pos, ps.len()) == Some((seq![h] + rest, pos + el)));
    }
}

/// Where the encoding of an identifier sequence sits, the parser finds every
/// identifier, in order.
proof fn lemma_enc_parse_ids(s: Seq<u8>, pos: int, ks: Seq<Seq<u8>>)
    requires
        0 <= pos,
        pos + enc_ids(ks).len() <= s.len(),
        s.subrange(pos, pos + enc_ids(ks).len() as int) == enc_ids(ks),
        ids_wf(ks),
    ensures
        parse_ids(s, pos, ks.len()) == Some((ks, pos + enc_ids(ks).len())),
    decreases ks.len(),
{
    if ks.len() == 0 {
        assert(ks =~= Seq::<Seq<u8>>::empty());
    } else {
        let h = ks[0];
        let rest = ks.drop_first();
        assert(ks =~= seq![h] + rest);
        lemma_enc_ids_cons(h, rest);
        let rb = enc_ids(rest);
        let all = enc_ids(ks);
        assert(all == h + rb);
        assert(h.len() == 32);
        let el = all.len() as int;
        assert forall|j: int| 0 <= j < 32 implies all.subrange(0, 32)[j] == h[j] by {
            assert((h + rb)[j] == h[j]);
        }
        assert(all.subrange(0, 32) =~= h);
        assert forall|j: int| 0 <= j < el - 32 implies all.subrange(32, el)[j] == rb[j] by {
            assert((h + rb)[32 + j] == rb[j]);
        }
        assert(all.subrange(32, el) =~= rb);
        lemma_subrange_shift(s, pos, all, 0, 32);
        lemma_subrange_shift(s, pos, all, 32, el);
        assert(parse_id(s, pos) == Some((h, pos + 32)));
        assert(ids_wf(rest));
        lemma_enc_parse_ids(s, pos + 32, rest);
        assert(parse_ids(s, pos, ks.len()) == Some((seq![h] + rest, pos + el)));
    }
}

/// Entry order preservation, and more: parsing the bytes a well-formed
/// snapshot serializes to gives back each section verbatim — the entry at
/// index `i` of the re-parsed file is the entry at index `i` of the snapshot,
/// and nothing trails the last section.
#[verifier::rlimit(100)]
pub proof fn lemma_enc_snapshot_parses(m: MempoolSerdeV)
    requires
        m.version == MEMPOOL_DUMP_VERSION_NO_XOR_KEY,
        m.txs.len() < 0x10000000000000000,
        m.map_deltas.len() < 0x10000000000000000,
        m.unbroadcast_txids.len() < 0x10000000000000000,
        forall|i: int| 0 <= i < m.txs.len() ==> payload_wf((#[trigger] m.txs[i]).payload),
        keys_wf(m.map_deltas),
        ids_wf(m.unbroadcast_txids),
    ensures
        parse_file(enc_snapshot(m)) matches Some(raw) && raw.entries == m.txs && raw.pairs
            == m.map_deltas && raw.ids == m.unbroadcast_txids && raw.end == enc_snapshot(m).len(),
{
    let s = enc_snapshot(m);
    let a1 = u64_le(m.version);
    let a2 = u64_le(m.txs.len() as u64);
    let a3 = enc_entries(m.txs);
    let a4 = varint_enc(m.map_deltas.len() as u64);
    let a5 = enc_pairs(m.map_deltas);
    let a6 = varint_enc(m.unbroadcast_txids.len() as u64);
    let a7 = enc_ids(m.unbroadcast_txids);
    assert(s == a1 + a2 + a3 + a4 + a5 + a6 + a7);
    let p1 = a1.len() as int;
    let p2 = p1 + a2.len() as int;
    let p3 = p2 + a3.len() as int;
    let p4 = p3 + a4.len() as int;
    let p5 = p4 + a5.len() as int;
    let p6 = p5 + a6.len() as int;
    let p7 = p6 + a7.len() as int;
    assert(s.subrange(0, p1) =~= a1);
    assert(s.subrange(p1, p2) =~= a2);
    assert(s.subrange(p2, p3) =~= a3);
    assert(s.subrange(p3, p4) =~= a4);
    assert(s.subrange(p4, p5) =~= a5);
    assert(s.subrange(p5, p6) =~= a6);
    assert(s.subrange(p6, p7) =~= a7);
    lemma_enc_parse_u64(s, 0, m.version);
    lemma_enc_parse_u64(s, p1, m.txs.len() as u64);
    lemma_enc_parse_entries(s, p2, m.txs);
    lemma_enc_parse_varint(s, p3, m.map_deltas.len() as u64);
    lemma_enc_parse_pairs(s, p4, m.map_deltas);
    lemma_enc_parse_varint(s, p5, m.unbroadcast_txids.len() as u64);
    lemma_enc_parse_ids(s, p6, m.unbroadcast_txids);
    assert((m.txs.len() as u64) as nat == m.txs.len());
    assert((m.map_deltas.len() as u64) as nat == m.map_deltas.len());
    assert((m.unbroadcast_txids.len() as u64) as nat == m.unbroadcast_txids.len());
}

/// Saving and re-loading gives back the very snapshot: the bytes a
/// well-formed snapshot serializes to decode to an equal model.
pub proof fn lemma_save_load_identity(m: MempoolSerdeV)
    requires
        m.version == MEMPOOL_DUMP_VERSION_NO_XOR_KEY,
        m.txs.len() < 0x10000000000000000,
        m.map_deltas.len() < 0x10000000000000000,
        m.unbroadcast_txids.len() < 0x10000000000000000,
        forall|i: int| 0 <= i < m.txs.len() ==> payload_wf((#[trigger] m.txs[i]).payload),
        keys_wf(m.map_deltas),
        keys_distinct(m.map_deltas),
        ids_wf(m.unbroadcast_txids),
        ids_distinct(m.unbroadcast_txids),
    ensures
        parse_file(enc_snapshot(m)) matches Some(raw) && decoded_model(raw) == m,
{
    lemma_enc_snapshot_parses(m);
    lemma_build_pairs_distinct(m.map_deltas);
    lemma_build_ids_distinct(m.unbroadcast_txids);
}

} // verus!
