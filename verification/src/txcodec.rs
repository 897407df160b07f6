//! The opaque transaction payload, and the small set of outside calls the
//! library leans on: finding the boundary of one protocol-encoded transaction,
//! decoding user-supplied hex, and reading the wall clock.

use vstd::prelude::*;

verus! {

/// The byte length of the one well-formed transaction record that starts a
/// byte string, if there is one. The record format is self-delimiting, so the
/// length is a function of the bytes alone.
pub uninterp spec fn tx_parse(s: Seq<u8>) -> Option<nat>;

/// A payload is well formed when it is exactly one transaction record: every
/// byte string that starts with it parses to a record of exactly its length.
pub open spec fn payload_wf(p: Seq<u8>) -> bool {
    forall|t: Seq<u8>|
        t.len() >= p.len() && #[trigger] t.subrange(0, p.len() as int) == p ==> tx_parse(t)
            == Some(p.len())
}

/// Relies on `bitcoin::Transaction::consensus_decode`: it reads one
/// transaction record from the front of the given suffix and the number of
/// bytes it consumes is returned. The decoder reads its input strictly in
/// order and consumes exactly the bytes of the record, so whether it succeeds,
/// and where the record ends, depend on the consumed bytes alone; under any
/// extension of them the boundary is the same.
#[verifier::external_body]
pub(crate) fn tx_boundary(bytes: &Vec<u8>, pos: usize) -> (r: Option<usize>)
    requires
        pos <= bytes@.len(),
    ensures
        r matches Some(n) ==> {
            &&& 1 <= n
            &&& pos + n <= bytes@.len()
            &&& tx_parse(bytes@.subrange(pos as int, bytes@.len() as int)) == Some(n as nat)
            &&& payload_wf(bytes@.subrange(pos as int, pos + n))
        },
        r is None ==> tx_parse(bytes@.subrange(pos as int, bytes@.len() as int)) is None,
{
    let mut slice: &[u8] = &bytes[pos..];
    let before = slice.len();
    let decoded: Result<bitcoin::Transaction, _> =
        bitcoin::consensus::Decodable::consensus_decode(&mut slice);
    match decoded {
        Ok(_) => Some(before - slice.len()),
        Err(_) => None,
    }
}

// ----- hex input at the editing boundary -----

/// The sixteen digits of hex, in either case.
pub open spec fn is_hex_digit(c: char) -> bool {
    ('0' <= c && c <= '9') || ('a' <= c && c <= 'f') || ('A' <= c && c <= 'F')
}

/// The value of one hex digit.
pub open spec fn hex_digit_val(c: char) -> int {
    if '0' <= c && c <= '9' {
        c as int - '0' as int
    } else if 'a' <= c && c <= 'f' {
        c as int - 'a' as int + 10
    } else {
        c as int - 'A' as int + 10
    }
}

/// A string is well-formed hex when its length is even and every character is
/// a hex digit.
pub open spec fn hex_ok(s: Seq<char>) -> bool {
    s.len() % 2 == 0 && (forall|i: int| 0 <= i < s.len() ==> is_hex_digit(#[trigger] s[i]))
}

/// The bytes a well-formed hex string denotes, two digits to a byte, high
/// nibble first.
pub open spec fn hex_bytes(s: Seq<char>) -> Seq<u8> {
    Seq::new((s.len() / 2) as nat, |i: int| (16 * hex_digit_val(s[2 * i]) + hex_digit_val(s[2 * i + 1])) as u8)
}

/// Relies on `hex::decode`: an even-length string of hex digits decodes to
/// its bytes, two digits to a byte, high nibble first; an odd length or any
/// other character is refused. (Hex digits are ASCII, so character positions
/// and input byte positions agree on every accepted string.)
#[verifier::external_body]
pub(crate) fn hex_decode(s: &str) -> (r: Option<Vec<u8>>)
    ensures
        r matches Some(b) ==> hex_ok(s@) && b@ == hex_bytes(s@),
        r is None ==> !hex_ok(s@),
{
    match hex::decode(s) {
        Ok(b) => Some(b),
        Err(_) => None,
    }
}

/// Relies on `chrono::Utc::now` for the wall clock, read as seconds since the
/// epoch; nothing is promised of the value.
#[verifier::external_body]
pub(crate) fn current_time() -> (r: i64)
{
    chrono::Utc::now().timestamp()
}

} // verus!
