//! Primitive codec: fixed-width little-endian integers and the self-delimiting
//! variable-length count prefix ("varint", Bitcoin's CompactSize encoding).
//!
//! Every reader is exact: it returns the unique value whose encoding is the
//! bytes it consumed, and fails precisely on truncated or non-minimal input.

use vstd::prelude::*;

verus! {

// ----- values of little-endian byte strings -----

/// The number denoted by two little-endian bytes.
pub open spec fn le16_val(s: Seq<u8>) -> int {
    s[0] + 0x100 * s[1]
}

/// The number denoted by four little-endian bytes.
pub open spec fn le32_val(s: Seq<u8>) -> int {
    s[0] + 0x100 * (s[1] + 0x100 * (s[2] + 0x100 * s[3]))
}

/// The number denoted by eight little-endian bytes.
pub open spec fn le64_val(s: Seq<u8>) -> int {
    s[0] + 0x100 * (s[1] + 0x100 * (s[2] + 0x100 * (s[3] + 0x100 * (s[4]
        + 0x100 * (s[5] + 0x100 * (s[6] + 0x100 * s[7]))))))
}

// ----- little-endian byte strings of values -----

/// The two little-endian bytes of a 16-bit value.
pub open spec fn u16_le(v: u16) -> Seq<u8> {
    seq![
        (v % 0x100) as u8,
        ((v / 0x100) % 0x100) as u8,
    ]
}

/// The four little-endian bytes of a 32-bit value.
pub open spec fn u32_le(v: u32) -> Seq<u8> {
    seq![
        (v % 0x100) as u8,
        ((v / 0x100) % 0x100) as u8,
        ((v / 0x10000) % 0x100) as u8,
        ((v / 0x1000000) % 0x100) as u8,
    ]
}

/// The eight little-endian bytes of a 64-bit value.
pub open spec fn u64_le(v: u64) -> Seq<u8> {
    seq![
        (v % 0x100) as u8,
        ((v / 0x100) % 0x100) as u8,
        ((v / 0x10000) % 0x100) as u8,
        ((v / 0x1000000) % 0x100) as u8,
        ((v / 0x100000000) % 0x100) as u8,
        ((v / 0x10000000000) % 0x100) as u8,
        ((v / 0x1000000000000) % 0x100) as u8,
        ((v / 0x100000000000000) % 0x100) as u8,
    ]
}

// ----- round trips between the two -----

pub proof fn lemma_le16_val_bound(s: Seq<u8>)
    requires
        s.len() >= 2,
    ensures
        0 <= le16_val(s) < 0x10000,
{
}

pub proof fn lemma_le32_val_bound(s: Seq<u8>)
    requires
        s.len() >= 4,
    ensures
        0 <= le32_val(s) < 0x100000000,
{
}

pub proof fn lemma_le64_val_bound(s: Seq<u8>)
    requires
        s.len() >= 8,
    ensures
        0 <= le64_val(s) < 0x10000000000000000,
{
}

/// Decoding the encoding of a 16-bit value gives the value back.
pub proof fn lemma_u16_le_val(v: u16)
    ensures
        u16_le(v).len() == 2,
        le16_val(u16_le(v)) == v,
{
    assert((v % 0x100) + 0x100 * ((v / 0x100) % 0x100) == v) by (bit_vector);
}

/// Decoding the encoding of a 32-bit value gives the value back.
pub proof fn lemma_u32_le_val(v: u32)
    ensures
        u32_le(v).len() == 4,
        le32_val(u32_le(v)) == v,
{
    assert((v % 0x100) + 0x100 * (((v / 0x100) % 0x100) + 0x100 * (((v / 0x10000) % 0x100)
        + 0x100 * ((v / 0x1000000) % 0x100))) == v) by (bit_vector);
}

/// Decoding the encoding of a 64-bit value gives the value back.
pub proof fn lemma_u64_le_val(v: u64)
    ensures
        u64_le(v).len() == 8,
        le64_val(u64_le(v)) == v,
{
    assert((v % 0x100) + 0x100 * (((v / 0x100) % 0x100) + 0x100 * (((v / 0x10000) % 0x100)
        + 0x100 * (((v / 0x1000000) % 0x100) + 0x100 * (((v / 0x100000000) % 0x100)
        + 0x100 * (((v / 0x10000000000) % 0x100) + 0x100 * (((v / 0x1000000000000) % 0x100)
        + 0x100 * ((v / 0x100000000000000) % 0x100))))))) == v) by (bit_vector);
}

/// Encoding the value of two bytes gives the bytes back.
pub proof fn lemma_le16_val_le(s: Seq<u8>)
    requires
        s.len() == 2,
    ensures
        u16_le(le16_val(s) as u16) == s,
{
    let b0 = s[0];
    let b1 = s[1];
    let v = le16_val(s) as u16;
    assert(v % 0x100 == b0 && (v / 0x100) % 0x100 == b1) by (bit_vector)
        requires
            v == b0 + 0x100 * b1,
    ;
    assert(u16_le(v) =~= s);
}

/// Encoding the value of four bytes gives the bytes back.
pub proof fn lemma_le32_val_le(s: Seq<u8>)
    requires
        s.len() == 4,
    ensures
        u32_le(le32_val(s) as u32) == s,
{
    let b0 = s[0];
    let b1 = s[1];
    let b2 = s[2];
    let b3 = s[3];
    let v = le32_val(s) as u32;
    assert(v % 0x100 == b0 && (v / 0x100) % 0x100 == b1 && (v / 0x10000) % 0x100 == b2
        && (v / 0x1000000) % 0x100 == b3) by (bit_vector)
        requires
            v == b0 + 0x100 * (b1 + 0x100 * (b2 + 0x100 * b3)),
    ;
    assert(u32_le(v) =~= s);
}

/// Encoding the value of eight bytes gives the bytes back.
pub proof fn lemma_le64_val_le(s: Seq<u8>)
    requires
        s.len() == 8,
    ensures
        u64_le(le64_val(s) as u64) == s,
{
    let b0 = s[0];
    let b1 = s[1];
    let b2 = s[2];
    let b3 = s[3];
    let b4 = s[4];
    let b5 = s[5];
    let b6 = s[6];
    let b7 = s[7];
    let v = le64_val(s) as u64;
    assert(v % 0x100 == b0 && (v / 0x100) % 0x100 == b1 && (v / 0x10000) % 0x100 == b2
        && (v / 0x1000000) % 0x100 == b3 && (v / 0x100000000) % 0x100 == b4
        && (v / 0x10000000000) % 0x100 == b5 && (v / 0x1000000000000) % 0x100 == b6
        && (v / 0x100000000000000) % 0x100 == b7) by (bit_vector)
        requires
            v == b0 + 0x100 * (b1 + 0x100 * (b2 + 0x100 * (b3 + 0x100 * (b4 + 0x100 * (b5
                + 0x100 * (b6 + 0x100 * b7)))))),
    ;
    assert(u64_le(v) =~= s);
}

/// A signed 64-bit value survives the trip through its unsigned carrier.
pub proof fn lemma_i64_u64_roundtrip(x: i64)
    ensures
        ((x as u64) as i64) == x,
{
    assert((x as u64) as i64 == x) by (bit_vector);
}

/// An unsigned 64-bit value survives the trip through its signed reading.
pub proof fn lemma_u64_i64_roundtrip(v: u64)
    ensures
        ((v as i64) as u64) == v,
{
    assert((v as i64) as u64 == v) by (bit_vector);
}

// ----- the varint (CompactSize) encoding -----

/// The encoding of a count: one byte below 0xfd, otherwise a discriminant
/// byte followed by the smallest little-endian integer that holds the value.
pub open spec fn varint_enc(v: u64) -> Seq<u8> {
    if v < 0xfd {
        seq![v as u8]
    } else if v <= 0xffff {
        seq![0xfdu8] + u16_le(v as u16)
    } else if v <= 0xffffffff {
        seq![0xfeu8] + u32_le(v as u32)
    } else {
        seq![0xffu8] + u64_le(v)
    }
}

// ----- parsing: what a reader finds at a position of a byte string -----

/// An unsigned 64-bit field at `pos`, if eight bytes are available.
pub open spec fn parse_u64(s: Seq<u8>, pos: int) -> Option<(u64, int)> {
    if 0 <= pos && pos + 8 <= s.len() {
        Some(((le64_val(s.subrange(pos, pos + 8)) as u64), pos + 8))
    } else {
        None
    }
}

/// A signed 64-bit field at `pos`: the unsigned field, read as two's complement.
pub open spec fn parse_i64(s: Seq<u8>, pos: int) -> Option<(i64, int)> {
    match parse_u64(s, pos) {
        Some((v, end)) => Some(((v as i64), end)),
        None => None,
    }
}

/// A varint at `pos`. Fails on truncated input and on the non-minimal
/// encodings that a wider-than-necessary integer would give.
pub open spec fn parse_varint(s: Seq<u8>, pos: int) -> Option<(u64, int)> {
    if 0 <= pos && pos + 1 <= s.len() {
        let d = s[pos];
        if d < 0xfd {
            Some((d as u64, pos + 1))
        } else if d == 0xfd {
            if pos + 3 <= s.len() {
                let v = le16_val(s.subrange(pos + 1, pos + 3));
                if v >= 0xfd {
                    Some((v as u64, pos + 3))
                } else {
                    None
                }
            } else {
                None
            }
        } else if d == 0xfe {
            if pos + 5 <= s.len() {
                let v = le32_val(s.subrange(pos + 1, pos + 5));
                if v >= 0x10000 {
                    Some((v as u64, pos + 5))
                } else {
                    None
                }
            } else {
                None
            }
        } else {
            if pos + 9 <= s.len() {
                let v = le64_val(s.subrange(pos + 1, pos + 9));
                if v >= 0x100000000 {
                    Some((v as u64, pos + 9))
                } else {
                    None
                }
            } else {
                None
            }
        }
    } else {
        None
    }
}

/// A parsed unsigned field re-encodes to exactly the bytes it was read from.
pub proof fn lemma_parse_u64_exact(s: Seq<u8>, pos: int)
    ensures
        parse_u64(s, pos) matches Some((v, end)) ==> {
            &&& end == pos + 8 <= s.len()
            &&& u64_le(v) == s.subrange(pos, end)
        },
{
    if parse_u64(s, pos) is Some {
        let sub = s.subrange(pos, pos + 8);
        lemma_le64_val_bound(sub);
        lemma_le64_val_le(sub);
    }
}

/// A parsed signed field re-encodes to exactly the bytes it was read from.
pub proof fn lemma_parse_i64_exact(s: Seq<u8>, pos: int)
    ensures
        parse_i64(s, pos) matches Some((x, end)) ==> {
            &&& end == pos + 8 <= s.len()
            &&& u64_le(x as u64) == s.subrange(pos, end)
        },
{
    lemma_parse_u64_exact(s, pos);
    match parse_u64(s, pos) {
        Some((v, end)) => lemma_u64_i64_roundtrip(v),
        None => (),
    }
}

/// A parsed varint re-encodes to exactly the bytes it was read from: the
/// minimality checks make the encoding canonical.
pub proof fn lemma_parse_varint_exact(s: Seq<u8>, pos: int)
    ensures
        parse_varint(s, pos) matches Some((v, end)) ==> {
            &&& pos < end <= s.len()
            &&& varint_enc(v) == s.subrange(pos, end)
        },
{
    match parse_varint(s, pos) {
        Some((v, end)) => {
            let d = s[pos];
            if d < 0xfd {
                assert(varint_enc(v) =~= s.subrange(pos, pos + 1));
            } else if d == 0xfd {
                let sub = s.subrange(pos + 1, pos + 3);
                lemma_le16_val_bound(sub);
                lemma_le16_val_le(sub);
                assert(varint_enc(v) =~= s.subrange(pos, pos + 3));
            } else if d == 0xfe {
                let sub = s.subrange(pos + 1, pos + 5);
                lemma_le32_val_bound(sub);
                lemma_le32_val_le(sub);
                assert(varint_enc(v) =~= s.subrange(pos, pos + 5));
            } else {
                let sub = s.subrange(pos + 1, pos + 9);
                lemma_le64_val_bound(sub);
                lemma_le64_val_le(sub);
                assert(varint_enc(v) =~= s.subrange(pos, pos + 9));
            }
        },
        None => (),
    }
}

/// A window into a byte string equals the same window into the string that
/// sits there.
pub proof fn lemma_subrange_shift(s: Seq<u8>, pos: int, all: Seq<u8>, x: int, y: int)
    requires
        0 <= pos,
        pos + all.len() <= s.len(),
        s.subrange(pos, pos + all.len() as int) == all,
        0 <= x <= y <= all.len(),
    ensures
        s.subrange(pos + x, pos + y) == all.subrange(x, y),
{
    let sub = s.subrange(pos, pos + all.len() as int);
    assert forall|j: int| 0 <= j < y - x implies s.subrange(pos + x, pos + y)[j] == all.subrange(
        x,
        y,
    )[j] by {
        assert(sub[x + j] == s[pos + x + j]);
        assert(all.subrange(x, y)[j] == all[x + j]);
    }
    assert(s.subrange(pos + x, pos + y) =~= all.subrange(x, y));
}

/// Where the encoding of an unsigned field sits, the parser finds the field.
pub proof fn lemma_enc_parse_u64(s: Seq<u8>, pos: int, v: u64)
    requires
        0 <= pos,
        pos + 8 <= s.len(),
        s.subrange(pos, pos + 8) == u64_le(v),
    ensures
        parse_u64(s, pos) == Some((v, pos + 8)),
{
    lemma_u64_le_val(v);
}

/// Where the encoding of a signed field sits, the parser finds the field.
pub proof fn lemma_enc_parse_i64(s: Seq<u8>, pos: int, x: i64)
    requires
        0 <= pos,
        pos + 8 <= s.len(),
        s.subrange(pos, pos + 8) == u64_le(x as u64),
    ensures
        parse_i64(s, pos) == Some((x, pos + 8)),
{
    lemma_enc_parse_u64(s, pos, x as u64);
    lemma_i64_u64_roundtrip(x);
}

/// Where the encoding of a varint sits, the parser finds the value: the
/// encoder always picks the minimal form, which the parser accepts.
pub proof fn lemma_enc_parse_varint(s: Seq<u8>, pos: int, v: u64)
    requires
        0 <= pos,
        pos + varint_enc(v).len() <= s.len(),
        s.subrange(pos, pos + varint_enc(v).len() as int) == varint_enc(v),
    ensures
        parse_varint(s, pos) == Some((v, pos + varint_enc(v).len())),
{
    let e = varint_enc(v);
    if v < 0xfd {
        assert(s[pos] == e[0]);
        assert(s[pos] == v as u8);
        assert((v as u8) as u64 == v);
    } else if v <= 0xffff {
        let sub = s.subrange(pos, pos + 3);
        let tail = u16_le(v as u16);
        assert(e == seq![0xfdu8] + tail);
        assert(forall|j: int| 0 <= j < 3 ==> #[trigger] sub[j] == s[pos + j]);
        assert(forall|j: int| 0 <= j < 2 ==> (seq![0xfdu8] + tail)[j + 1] == #[trigger] tail[j]);
        assert(s[pos] == e[0]);
        lemma_u16_le_val(v as u16);
        assert(s.subrange(pos + 1, pos + 3) =~= tail);
        assert(le16_val(s.subrange(pos + 1, pos + 3)) == v as u16);
        assert(v as u16 == v);
    } else if v <= 0xffffffff {
        let sub = s.subrange(pos, pos + 5);
        let tail = u32_le(v as u32);
        assert(e == seq![0xfeu8] + tail);
        assert(forall|j: int| 0 <= j < 5 ==> #[trigger] sub[j] == s[pos + j]);
        assert(forall|j: int| 0 <= j < 4 ==> (seq![0xfeu8] + tail)[j + 1] == #[trigger] tail[j]);
        assert(s[pos] == e[0]);
        lemma_u32_le_val(v as u32);
        assert(s.subrange(pos + 1, pos + 5) =~= tail);
        assert(le32_val(s.subrange(pos + 1, pos + 5)) == v as u32);
        assert(v as u32 == v);
    } else {
        let sub = s.subrange(pos, pos + 9);
        let tail = u64_le(v);
        assert(e == seq![0xffu8] + tail);
        assert(forall|j: int| 0 <= j < 9 ==> #[trigger] sub[j] == s[pos + j]);
        assert(forall|j: int| 0 <= j < 8 ==> (seq![0xffu8] + tail)[j + 1] == #[trigger] tail[j]);
        assert(s[pos] == e[0]);
        lemma_u64_le_val(v);
        assert(s.subrange(pos + 1, pos + 9) =~= tail);
        assert(le64_val(s.subrange(pos + 1, pos + 9)) == v);
    }
}

// ----- executable readers -----

/// Reads an unsigned 64-bit field, or fails on truncated input.
pub fn read_u64(bytes: &Vec<u8>, pos: usize) -> (r: Option<(u64, usize)>)
    ensures
        r matches Some((v, end)) ==> parse_u64(bytes@, pos as int) == Some((v, end as int)),
        r is None <==> parse_u64(bytes@, pos as int) is None,
{
    if pos <= bytes.len() && bytes.len() - pos >= 8 {
        let b0 = bytes[pos] as u64;
        let b1 = bytes[pos + 1] as u64;
        let b2 = bytes[pos + 2] as u64;
        let b3 = bytes[pos + 3] as u64;
        let b4 = bytes[pos + 4] as u64;
        let b5 = bytes[pos + 5] as u64;
        let b6 = bytes[pos + 6] as u64;
        let b7 = bytes[pos + 7] as u64;
        let v = b0 + 0x100 * b1 + 0x10000 * b2 + 0x1000000 * b3 + 0x100000000 * b4
            + 0x10000000000 * b5 + 0x1000000000000 * b6 + 0x100000000000000 * b7;
        proof {
            let sub = bytes@.subrange(pos as int, pos + 8);
            assert(sub[0] == b0 && sub[1] == b1 && sub[2] == b2 && sub[3] == b3 && sub[4] == b4
                && sub[5] == b5 && sub[6] == b6 && sub[7] == b7);
            lemma_le64_val_bound(sub);
        }
        Some((v, pos + 8))
    } else {
        None
    }
}

/// Reads a signed 64-bit field, or fails on truncated input.
pub fn read_i64(bytes: &Vec<u8>, pos: usize) -> (r: Option<(i64, usize)>)
    ensures
        r matches Some((x, end)) ==> parse_i64(bytes@, pos as int) == Some((x, end as int)),
        r is None <==> parse_i64(bytes@, pos as int) is None,
{
    match read_u64(bytes, pos) {
        Some((v, end)) => Some((v as i64, end)),
        None => None,
    }
}

/// Reads a varint, or fails on truncated or non-minimal input.
pub fn read_varint(bytes: &Vec<u8>, pos: usize) -> (r: Option<(u64, usize)>)
    ensures
        r matches Some((v, end)) ==> parse_varint(bytes@, pos as int) == Some((v, end as int))
            && pos < end <= bytes@.len(),
        r is None <==> parse_varint(bytes@, pos as int) is None,
{
    if pos >= bytes.len() {
        return None;
    }
    let d = bytes[pos];
    if d < 0xfd {
        Some((d as u64, pos + 1))
    } else if d == 0xfd {
        if bytes.len() - (pos + 1) >= 2 {
            let b0 = bytes[pos + 1] as u64;
            let b1 = bytes[pos + 2] as u64;
            let v = b0 + 0x100 * b1;
            proof {
                let sub = bytes@.subrange(pos + 1, pos + 3);
                assert(sub[0] == b0 && sub[1] == b1);
            }
            if v >= 0xfd {
                Some((v, pos + 3))
            } else {
                None
            }
        } else {
            None
        }
    } else if d == 0xfe {
        if bytes.len() - (pos + 1) >= 4 {
            let b0 = bytes[pos + 1] as u64;
            let b1 = bytes[pos + 2] as u64;
            let b2 = bytes[pos + 3] as u64;
            let b3 = bytes[pos + 4] as u64;
            let v = b0 + 0x100 * b1 + 0x10000 * b2 + 0x1000000 * b3;
            proof {
                let sub = bytes@.subrange(pos + 1, pos + 5);
                assert(sub[0] == b0 && sub[1] == b1 && sub[2] == b2 && sub[3] == b3);
            }
            if v >= 0x10000 {
                Some((v, pos + 5))
            } else {
                None
            }
        } else {
            None
        }
    } else {
        if bytes.len() - (pos + 1) >= 8 {
            let b0 = bytes[pos + 1] as u64;
            let b1 = bytes[pos + 2] as u64;
            let b2 = bytes[pos + 3] as u64;
            let b3 = bytes[pos + 4] as u64;
            let b4 = bytes[pos + 5] as u64;
            let b5 = bytes[pos + 6] as u64;
            let b6 = bytes[pos + 7] as u64;
            let b7 = bytes[pos + 8] as u64;
            let v = b0 + 0x100 * b1 + 0x10000 * b2 + 0x1000000 * b3 + 0x100000000 * b4
                + 0x10000000000 * b5 + 0x1000000000000 * b6 + 0x100000000000000 * b7;
            proof {
                let sub = bytes@.subrange(pos + 1, pos + 9);
                assert(sub[0] == b0 && sub[1] == b1 && sub[2] == b2 && sub[3] == b3
                    && sub[4] == b4 && sub[5] == b5 && sub[6] == b6 && sub[7] == b7);
                lemma_le64_val_bound(sub);
            }
            if v >= 0x100000000 {
                Some((v, pos + 9))
            } else {
                None
            }
        } else {
            None
        }
    }
}

// ----- executable writers -----

/// Appends the eight little-endian bytes of an unsigned 64-bit field.
pub fn write_u64(out: &mut Vec<u8>, v: u64)
    ensures
        final(out)@ == old(out)@ + u64_le(v),
{
    out.push((v % 0x100) as u8);
    out.push(((v / 0x100) % 0x100) as u8);
    out.push(((v / 0x10000) % 0x100) as u8);
    out.push(((v / 0x1000000) % 0x100) as u8);
    out.push(((v / 0x100000000) % 0x100) as u8);
    out.push(((v / 0x10000000000) % 0x100) as u8);
    out.push(((v / 0x1000000000000) % 0x100) as u8);
    out.push(((v / 0x100000000000000) % 0x100) as u8);
    proof {
        assert(out@ =~= old(out)@ + u64_le(v));
    }
}

/// Appends the eight little-endian bytes of a signed 64-bit field.
pub fn write_i64(out: &mut Vec<u8>, x: i64)
    ensures
        final(out)@ == old(out)@ + u64_le(x as u64),
{
    write_u64(out, x as u64);
}

/// Appends the minimal varint encoding of a count.
pub fn write_varint(out: &mut Vec<u8>, v: u64)
    ensures
        final(out)@ == old(out)@ + varint_enc(v),
{
    if v < 0xfd {
        out.push(v as u8);
        proof {
            assert(out@ =~= old(out)@ + varint_enc(v));
        }
    } else if v <= 0xffff {
        let w = v as u16;
        out.push(0xfd);
        out.push((w % 0x100) as u8);
        out.push(((w / 0x100) % 0x100) as u8);
        proof {
            assert(out@ =~= old(out)@ + varint_enc(v));
        }
    } else if v <= 0xffffffff {
        let w = v as u32;
        out.push(0xfe);
        out.push((w % 0x100) as u8);
        out.push(((w / 0x100) % 0x100) as u8);
        out.push(((w / 0x10000) % 0x100) as u8);
        out.push(((w / 0x1000000) % 0x100) as u8);
        proof {
            assert(out@ =~= old(out)@ + varint_enc(v));
        }
    } else {
        out.push(0xff);
        write_u64(out, v);
        proof {
            assert(out@ =~= old(out)@ + varint_enc(v));
        }
    }
}

/// Appends a whole byte string.
pub fn append_bytes(out: &mut Vec<u8>, src: &Vec<u8>)
    ensures
        final(out)@ == old(out)@ + src@,
{
    let mut i: usize = 0;
    while i < src.len()
        invariant
            i <= src@.len(),
            out@ == old(out)@ + src@.subrange(0, i as int),
        decreases src@.len() - i,
    {
        out.push(src[i]);
        i = i + 1;
        proof {
            assert(out@ =~= old(out)@ + src@.subrange(0, i as int));
        }
    }
    proof {
        assert(src@.subrange(0, src@.len() as int) =~= src@);
    }
}

/// Copies the bytes of a half-open range out of a byte string.
pub fn copy_range(bytes: &Vec<u8>, from: usize, to: usize) -> (r: Vec<u8>)
    requires
        from <= to <= bytes@.len(),
    ensures
        r@ == bytes@.subrange(from as int, to as int),
{
    let mut r: Vec<u8> = Vec::new();
    let mut i: usize = from;
    while i < to
        invariant
            from <= i <= to <= bytes@.len(),
            r@ == bytes@.subrange(from as int, i as int),
        decreases to - i,
    {
        r.push(bytes[i]);
        i = i + 1;
        proof {
            assert(r@ =~= bytes@.subrange(from as int, i as int));
        }
    }
    r
}

} // verus!
