//! Fixed eight-byte little-endian encoding of sketch entries, and the
//! base64 text encoding of the concatenated bytes.

use vstd::prelude::*;

verus! {

/// Declares base64's error type, so that decode failures can be held and
/// returned; the library treats its values as opaque.
#[verifier::external_type_specification]
#[verifier::external_body]
pub struct ExDecodeError(base64::DecodeError);

/// The eight little-endian bytes of one sketch entry (two's complement).
pub open spec fn le_bytes_of(v: i64) -> Seq<u8> {
    let u = v as u64;
    seq![
        (u & 0xff) as u8,
        ((u >> 8) & 0xff) as u8,
        ((u >> 16) & 0xff) as u8,
        ((u >> 24) & 0xff) as u8,
        ((u >> 32) & 0xff) as u8,
        ((u >> 40) & 0xff) as u8,
        ((u >> 48) & 0xff) as u8,
        ((u >> 56) & 0xff) as u8,
    ]
}

/// The sketch entry encoded by eight little-endian bytes.
pub open spec fn i64_of_le(s: Seq<u8>) -> i64
    recommends
        s.len() == 8,
{
    ((s[0] as u64) | ((s[1] as u64) << 8) | ((s[2] as u64) << 16) | ((s[3] as u64) << 24) | ((
    s[4] as u64) << 32) | ((s[5] as u64) << 40) | ((s[6] as u64) << 48) | ((s[7] as u64) << 56))
        as i64
}

/// The concatenation of the eight-byte encodings of all entries, in order.
pub open spec fn bytes_of_entries(s: Seq<i64>) -> Seq<u8>
    decreases s.len(),
{
    if s.len() == 0 {
        Seq::empty()
    } else {
        bytes_of_entries(s.drop_last()) + le_bytes_of(s.last())
    }
}

/// The entries encoded by a buffer of consecutive eight-byte chunks.
pub open spec fn entries_of_bytes(bytes: Seq<u8>) -> Seq<i64>
    decreases bytes.len(),
    when bytes.len() % 8 == 0
{
    if bytes.len() == 0 {
        Seq::empty()
    } else {
        entries_of_bytes(bytes.subrange(0, bytes.len() - 8)).push(
            i64_of_le(bytes.subrange(bytes.len() - 8, bytes.len() as int)),
        )
    }
}

/// Eight bytes per entry.
pub proof fn lemma_bytes_of_entries_len(s: Seq<i64>)
    ensures
        bytes_of_entries(s).len() == 8 * s.len(),
    decreases s.len(),
{
    if s.len() > 0 {
        lemma_bytes_of_entries_len(s.drop_last());
    }
}

/// One entry survives the trip through its eight-byte encoding.
pub proof fn lemma_le_round_trip(v: i64)
    ensures
        i64_of_le(le_bytes_of(v)) == v,
{
    let u = v as u64;
    assert((((u & 0xff) as u8) as u64) | ((((u >> 8) & 0xff) as u8) as u64) << 8 | ((((u >> 16)
        & 0xff) as u8) as u64) << 16 | ((((u >> 24) & 0xff) as u8) as u64) << 24 | ((((u >> 32)
        & 0xff) as u8) as u64) << 32 | ((((u >> 40) & 0xff) as u8) as u64) << 40 | ((((u >> 48)
        & 0xff) as u8) as u64) << 48 | ((((u >> 56) & 0xff) as u8) as u64) << 56 == u)
        by (bit_vector);
    assert((u as i64) == v) by (bit_vector)
        requires
            u == v as u64,
    ;
}

/// Decoding inverts encoding: the persisted byte form reconstructs exactly
/// the entries it was built from.
pub proof fn lemma_entries_round_trip(s: Seq<i64>)
    ensures
        entries_of_bytes(bytes_of_entries(s)) == s,
    decreases s.len(),
{
    lemma_bytes_of_entries_len(s);
    if s.len() == 0 {
        assert(entries_of_bytes(bytes_of_entries(s)) =~= s);
    } else {
        lemma_bytes_of_entries_len(s.drop_last());
        let bytes = bytes_of_entries(s);
        assert(bytes.subrange(0, bytes.len() - 8) =~= bytes_of_entries(s.drop_last()));
        assert(bytes.subrange(bytes.len() - 8, bytes.len() as int) =~= le_bytes_of(s.last()));
        lemma_entries_round_trip(s.drop_last());
        lemma_le_round_trip(s.last());
        assert(entries_of_bytes(bytes_of_entries(s)) =~= s);
    }
}

/// Append the eight little-endian bytes of `v` to `out`.
pub(crate) fn push_le_bytes(out: &mut Vec<u8>, v: i64)
    ensures
        final(out)@ == old(out)@ + le_bytes_of(v),
{
    let u: u64 = #[verifier::truncate] (v as u64);
    proof {
        assert((u & 0xff) <= 0xff && ((u >> 8) & 0xff) <= 0xff && ((u >> 16) & 0xff) <= 0xff && ((
        u >> 24) & 0xff) <= 0xff && ((u >> 32) & 0xff) <= 0xff && ((u >> 40) & 0xff) <= 0xff && ((
        u >> 48) & 0xff) <= 0xff && ((u >> 56) & 0xff) <= 0xff) by (bit_vector);
    }
    out.push((u & 0xff) as u8);
    out.push(((u >> 8) & 0xff) as u8);
    out.push(((u >> 16) & 0xff) as u8);
    out.push(((u >> 24) & 0xff) as u8);
    out.push(((u >> 32) & 0xff) as u8);
    out.push(((u >> 40) & 0xff) as u8);
    out.push(((u >> 48) & 0xff) as u8);
    out.push(((u >> 56) & 0xff) as u8);
    proof {
        assert(out@ =~= old(out)@ + le_bytes_of(v));
    }
}

/// Read the entry encoded at `bytes[off .. off + 8]`.
pub(crate) fn read_le_i64(bytes: &Vec<u8>, off: usize) -> (r: i64)
    requires
        off + 8 <= bytes@.len(),
    ensures
        r == i64_of_le(bytes@.subrange(off as int, off as int + 8)),
{
    let n = bytes.len();
    proof {
        assert(off + 8 <= n);
    }
    let u: u64 = (bytes[off] as u64) | ((bytes[off + 1] as u64) << 8) | ((bytes[off + 2] as u64)
        << 16) | ((bytes[off + 3] as u64) << 24) | ((bytes[off + 4] as u64) << 32) | ((bytes[off
        + 5] as u64) << 40) | ((bytes[off + 6] as u64) << 48) | ((bytes[off + 7] as u64) << 56);
    let ghost s = bytes@.subrange(off as int, off as int + 8);
    proof {
        assert(s[0] == bytes@[off as int] && s[1] == bytes@[off + 1] && s[2] == bytes@[off + 2]
            && s[3] == bytes@[off + 3] && s[4] == bytes@[off + 4] && s[5] == bytes@[off + 5]
            && s[6] == bytes@[off + 6] && s[7] == bytes@[off + 7]);
    }
    #[verifier::truncate] (u as i64)
}

/// The base64 text (standard alphabet, padded) that encodes `bytes`.
pub uninterp spec fn b64_encode_of(bytes: Seq<u8>) -> Seq<char>;

/// The bytes that `text` decodes to under the same encoding, or `None` if
/// `text` is not well-formed base64.
pub uninterp spec fn b64_decode_of(text: Seq<char>) -> Option<Seq<u8>>;

/// Relies on base64::encode: standard-alphabet padded base64 of the input,
/// a function of the input bytes alone, reversed by base64::decode.
#[verifier::external_body]
pub(crate) fn b64_encode(bytes: &Vec<u8>) -> (r: String)
    ensures
        r@ == b64_encode_of(bytes@),
        b64_decode_of(r@) == Some(bytes@),
{
    #[allow(deprecated)]
    base64::encode(bytes.as_slice())
}

/// Relies on base64::decode: recovers the bytes that the text encodes, and
/// fails exactly on text that is not well-formed base64.
#[verifier::external_body]
pub(crate) fn b64_decode(text: &str) -> (r: Result<Vec<u8>, base64::DecodeError>)
    ensures
        match r {
            Ok(v) => b64_decode_of(text@) == Some(v@),
            Err(_) => b64_decode_of(text@) is None,
        },
{
    #[allow(deprecated)]
    base64::decode(text)
}

} // verus!
