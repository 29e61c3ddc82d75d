//! The primitive values of the binary format: integers in little-endian
//! order and texts as their length in bytes followed by their UTF-8 bytes.
use vstd::prelude::*;
use vstd::bytes::{
    spec_u16_from_le_bytes, spec_u16_to_le_bytes, spec_u64_from_le_bytes, spec_u64_to_le_bytes,
};
use vstd::slice::slice_subrange;
use vstd::utf8::{encode_utf8, valid_utf8};
use crate::error::Error;

verus! {

/// What `bincode` reports when it cannot write or read a value.
#[verifier::external_type_specification]
#[verifier::external_body]
pub struct ExErrorKind(bincode::ErrorKind);

/// A text in the format: the number of its UTF-8 bytes as a 64-bit integer,
/// then the bytes.
pub open spec fn text_bytes(s: Seq<char>) -> Seq<u8> {
    spec_u64_to_le_bytes(encode_utf8(s).len() as u64) + encode_utf8(s)
}

/// `bincode::serialize` of a `u16`: it writes into a vector without a limit
/// of size, so it succeeds, and gives the two bytes of the number, the low
/// one first.
#[verifier::external_body]
fn encode_u16(v: u16) -> (r: Result<Vec<u8>, bincode::Error>)
    ensures
        r is Ok,
        r matches Ok(b) ==> b@ == spec_u16_to_le_bytes(v),
{
    bincode::serialize(&v)
}

/// `bincode::serialize` of a `u64`: it writes into a vector without a limit
/// of size, so it succeeds, and gives the eight bytes of the number, the
/// lowest first.
#[verifier::external_body]
fn encode_u64(v: u64) -> (r: Result<Vec<u8>, bincode::Error>)
    ensures
        r is Ok,
        r matches Ok(b) ==> b@ == spec_u64_to_le_bytes(v),
{
    bincode::serialize(&v)
}

/// `bincode::serialize` of a text: it writes into a vector without a limit
/// of size, so it succeeds, and gives the length of the text in bytes as a
/// `u64`, then its UTF-8 bytes.
#[verifier::external_body]
fn encode_str(s: &str) -> (r: Result<Vec<u8>, bincode::Error>)
    ensures
        r is Ok,
        r matches Ok(b) ==> b@ == text_bytes(s@),
{
    bincode::serialize(s)
}

/// `bincode::deserialize` of a `u16`: it succeeds where there are two bytes
/// or more, and reads the first two.
#[verifier::external_body]
fn decode_u16(bytes: &[u8]) -> (r: Result<u16, bincode::Error>)
    ensures
        r is Ok <==> bytes@.len() >= 2,
        r matches Ok(v) ==> v == spec_u16_from_le_bytes(bytes@.subrange(0, 2)),
{
    bincode::deserialize(bytes)
}

/// `bincode::deserialize` of a `u64`: it succeeds where there are eight
/// bytes or more, and reads the first eight.
#[verifier::external_body]
fn decode_u64(bytes: &[u8]) -> (r: Result<u64, bincode::Error>)
    ensures
        r is Ok <==> bytes@.len() >= 8,
        r matches Ok(v) ==> v == spec_u64_from_le_bytes(bytes@.subrange(0, 8)),
{
    bincode::deserialize(bytes)
}

/// Whether a text stands at the front of the bytes: a length, and as many
/// bytes as it says, which are valid UTF-8.
pub open spec fn text_at_front(bytes: Seq<u8>) -> bool {
    &&& bytes.len() >= 8
    &&& 8 + spec_u64_from_le_bytes(bytes.subrange(0, 8)) <= bytes.len()
    &&& valid_utf8(bytes.subrange(8, 8 + spec_u64_from_le_bytes(bytes.subrange(0, 8))))
}

/// `bincode::deserialize` of a `String`: it succeeds where a text stands at
/// the front of the bytes, and reads that text.
#[verifier::external_body]
fn decode_string(bytes: &[u8]) -> (r: Result<String, bincode::Error>)
    ensures
        r is Ok <==> text_at_front(bytes@),
        r matches Ok(s) ==> encode_utf8(s@) == bytes@.subrange(
            8,
            8 + spec_u64_from_le_bytes(bytes@.subrange(0, 8)),
        ),
{
    bincode::deserialize(bytes)
}

/// The byte at `pos` and where the bytes go on.
pub open spec fn u8_at(b: Seq<u8>, pos: int) -> Option<(u8, int)> {
    if 0 <= pos < b.len() {
        Some((b[pos], pos + 1))
    } else {
        None
    }
}

/// The 16-bit number at `pos` and where the bytes go on.
pub open spec fn u16_at(b: Seq<u8>, pos: int) -> Option<(u16, int)> {
    if 0 <= pos && pos + 2 <= b.len() {
        Some((spec_u16_from_le_bytes(b.subrange(pos, pos + 2)), pos + 2))
    } else {
        None
    }
}

/// The 64-bit number at `pos` and where the bytes go on.
pub open spec fn u64_at(b: Seq<u8>, pos: int) -> Option<(u64, int)> {
    if 0 <= pos && pos + 8 <= b.len() {
        Some((spec_u64_from_le_bytes(b.subrange(pos, pos + 8)), pos + 8))
    } else {
        None
    }
}

/// The index or count at `pos` and where the bytes go on: a 64-bit number
/// that fits the machine.
pub open spec fn usize_at(b: Seq<u8>, pos: int) -> Option<(usize, int)> {
    match u64_at(b, pos) {
        Some((v, e)) => if v <= usize::MAX {
            Some((v as usize, e))
        } else {
            None
        },
        None => None,
    }
}

/// The text at `pos` and where the bytes go on.
pub open spec fn text_at(b: Seq<u8>, pos: int) -> Option<(Seq<char>, int)> {
    match u64_at(b, pos) {
        None => None,
        Some((n, e)) => if e + n <= b.len() && valid_utf8(b.subrange(e, e + n)) {
            Some((vstd::utf8::decode_utf8(b.subrange(e, e + n)), e + n))
        } else {
            None
        },
    }
}

/// Writes one byte.
pub fn put_u8(out: &mut Vec<u8>, v: u8)
    ensures
        final(out)@ == old(out)@.push(v),
{
    out.push(v);
}

fn append(out: &mut Vec<u8>, part: Vec<u8>)
    ensures
        final(out)@ == old(out)@ + part@,
{
    let mut part = part;
    out.append(&mut part);
}

/// Writes a 16-bit number, the low byte first.
pub fn put_u16(out: &mut Vec<u8>, v: u16)
    ensures
        final(out)@ == old(out)@ + spec_u16_to_le_bytes(v),
{
    if let Ok(b) = encode_u16(v) {
        append(out, b);
    }
}

/// Writes a 64-bit number, the lowest byte first.
pub fn put_u64(out: &mut Vec<u8>, v: u64)
    ensures
        final(out)@ == old(out)@ + spec_u64_to_le_bytes(v),
{
    if let Ok(b) = encode_u64(v) {
        append(out, b);
    }
}

/// Writes an index or a count as a 64-bit number.
pub fn put_usize(out: &mut Vec<u8>, v: usize)
    ensures
        final(out)@ == old(out)@ + spec_u64_to_le_bytes(v as u64),
{
    put_u64(out, v as u64)
}

/// Whether the length of a text in bytes can be written.
pub open spec fn text_fits(s: Seq<char>) -> bool {
    encode_utf8(s).len() <= u64::MAX
}

/// Writes a text: its length in bytes, then its UTF-8 bytes. A text that is
/// held in memory is of a length that can be written.
pub fn put_text(out: &mut Vec<u8>, s: &str)
    ensures
        final(out)@ == old(out)@ + text_bytes(s@),
        text_fits(s@),
{
    if let Ok(b) = encode_str(s) {
        let total: usize = b.len();
        proof {
            vstd::bytes::lemma_auto_spec_u64_to_from_le_bytes();
            assert(total == 8 + encode_utf8(s@).len());
        }
        append(out, b);
    }
}

/// Reads the byte at `pos`.
pub fn get_u8(bytes: &[u8], pos: usize) -> (r: Result<(u8, usize), Error>)
    ensures
        match r {
            Ok((v, e)) => u8_at(bytes@, pos as int) == Some((v, e as int)),
            Err(e) => u8_at(bytes@, pos as int) is None && e == Error::Truncated,
        },
{
    if pos < bytes.len() {
        Ok((bytes[pos], pos + 1))
    } else {
        Err(Error::Truncated)
    }
}

/// Reads the 16-bit number at `pos`.
pub fn get_u16(bytes: &[u8], pos: usize) -> (r: Result<(u16, usize), Error>)
    ensures
        match r {
            Ok((v, e)) => u16_at(bytes@, pos as int) == Some((v, e as int)),
            Err(e) => u16_at(bytes@, pos as int) is None && e == Error::Truncated,
        },
{
    if pos > bytes.len() {
        return Err(Error::Truncated);
    }
    let rest = slice_subrange(bytes, pos, bytes.len());
    match decode_u16(rest) {
        Ok(v) => {
            assert(rest@.subrange(0, 2) =~= bytes@.subrange(pos as int, pos + 2));
            Ok((v, pos + 2))
        },
        Err(_) => Err(Error::Truncated),
    }
}

/// Reads the 64-bit number at `pos`.
pub fn get_u64(bytes: &[u8], pos: usize) -> (r: Result<(u64, usize), Error>)
    ensures
        match r {
            Ok((v, e)) => u64_at(bytes@, pos as int) == Some((v, e as int)),
            Err(e) => u64_at(bytes@, pos as int) is None && e == Error::Truncated,
        },
{
    if pos > bytes.len() {
        return Err(Error::Truncated);
    }
    let rest = slice_subrange(bytes, pos, bytes.len());
    match decode_u64(rest) {
        Ok(v) => {
            assert(rest@.subrange(0, 8) =~= bytes@.subrange(pos as int, pos + 8));
            Ok((v, pos + 8))
        },
        Err(_) => Err(Error::Truncated),
    }
}

/// Reads the index or count at `pos`.
pub fn get_usize(bytes: &[u8], pos: usize) -> (r: Result<(usize, usize), Error>)
    ensures
        match r {
            Ok((v, e)) => usize_at(bytes@, pos as int) == Some((v, e as int)),
            Err(e) => usize_at(bytes@, pos as int) is None && e == Error::Truncated,
        },
{
    let (v, e) = get_u64(bytes, pos)?;
    if v <= usize::MAX as u64 {
        Ok((v as usize, e))
    } else {
        Err(Error::Truncated)
    }
}

/// Reads the text at `pos`.
pub fn get_text(bytes: &[u8], pos: usize) -> (r: Result<(String, usize), Error>)
    ensures
        match r {
            Ok((s, e)) => text_at(bytes@, pos as int) == Some((s@, e as int)),
            Err(e) => text_at(bytes@, pos as int) is None && e == Error::Truncated,
        },
{
    if pos > bytes.len() {
        return Err(Error::Truncated);
    }
    let rest = slice_subrange(bytes, pos, bytes.len());
    proof {
        if rest@.len() >= 8 {
            assert(rest@.subrange(0, 8) =~= bytes@.subrange(pos as int, pos + 8));
            let n = spec_u64_from_le_bytes(rest@.subrange(0, 8));
            if 8 + n <= rest@.len() {
                assert(rest@.subrange(8, 8 + n) =~= bytes@.subrange(pos + 8, pos + 8 + n));
            }
        }
    }
    match decode_string(rest) {
        Ok(s) => {
            let n = s.as_str().len();
            proof {
                vstd::utf8::encode_utf8_decode_utf8(s@);
            }
            Ok((s, pos + 8 + n))
        },
        Err(_) => Err(Error::Truncated),
    }
}

} // verus!
