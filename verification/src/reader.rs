//! The byte cursor of the container: fixed-width little-endian integers and
//! the length-prefixed string encoding.
//!
//! Reads take the buffer and a position, advance the position by exactly the
//! width of the field, and fail with `TruncatedInput` when fewer bytes remain.
//! A string field is one marker byte — `0x00` for an absent string, `0x0b`
//! for a present one — then a length byte and that many UTF-8 bytes.
//! Writers mirror the readers; a string longer than 255 bytes is refused
//! rather than silently truncated.

use vstd::prelude::*;

use crate::error::Error;

verus! {

broadcast use {
    vstd::utf8::encode_utf8_valid_utf8,
    vstd::utf8::encode_utf8_decode_utf8,
    vstd::utf8::decode_utf8_encode_utf8,
};

/// One byte off the front of `b`, and what remains.
pub open spec fn stake_u8(b: Seq<u8>) -> Result<(u8, Seq<u8>), Error> {
    if b.len() >= 1 {
        Ok((b[0], b.skip(1)))
    } else {
        Err(Error::TruncatedInput)
    }
}

/// A little-endian 16-bit integer off the front of `b`.
pub open spec fn stake_u16(b: Seq<u8>) -> Result<(u16, Seq<u8>), Error> {
    if b.len() >= 2 {
        Ok((vstd::bytes::spec_u16_from_le_bytes(b.take(2)), b.skip(2)))
    } else {
        Err(Error::TruncatedInput)
    }
}

/// A little-endian 32-bit integer off the front of `b`.
pub open spec fn stake_u32(b: Seq<u8>) -> Result<(u32, Seq<u8>), Error> {
    if b.len() >= 4 {
        Ok((vstd::bytes::spec_u32_from_le_bytes(b.take(4)), b.skip(4)))
    } else {
        Err(Error::TruncatedInput)
    }
}

/// A little-endian 64-bit integer off the front of `b`.
pub open spec fn stake_u64(b: Seq<u8>) -> Result<(u64, Seq<u8>), Error> {
    if b.len() >= 8 {
        Ok((vstd::bytes::spec_u64_from_le_bytes(b.take(8)), b.skip(8)))
    } else {
        Err(Error::TruncatedInput)
    }
}

/// `n` raw bytes off the front of `b`.
pub open spec fn stake_bytes(b: Seq<u8>, n: int) -> Result<(Seq<u8>, Seq<u8>), Error> {
    if b.len() >= n {
        Ok((b.take(n), b.skip(n)))
    } else {
        Err(Error::TruncatedInput)
    }
}

/// A marker-prefixed string off the front of `b`: `None` for marker 0x00,
/// the decoded payload for marker 0x0b, an error for any other marker, a
/// short buffer, or a payload that is not UTF-8.
pub open spec fn stake_string(b: Seq<u8>) -> Result<(Option<Seq<char>>, Seq<u8>), Error> {
    if b.len() < 1 {
        Err(Error::TruncatedInput)
    } else if b[0] == 0u8 {
        Ok((None, b.skip(1)))
    } else if b[0] == 0x0bu8 {
        if b.len() < 2 {
            Err(Error::TruncatedInput)
        } else {
            let n = b[1] as int;
            if b.len() < 2 + n {
                Err(Error::TruncatedInput)
            } else {
                let payload = b.subrange(2, 2 + n);
                if vstd::utf8::valid_utf8(payload) {
                    Ok((Some(vstd::utf8::decode_utf8(payload)), b.skip(2 + n)))
                } else {
                    Err(Error::InvalidStringEncoding)
                }
            }
        }
    } else {
        Err(Error::MalformedStringMarker)
    }
}

/// The wire bytes of an optional string: the absence marker alone, or the
/// presence marker, the byte length, and the UTF-8 bytes.
pub open spec fn spec_write_string(s: Option<Seq<char>>) -> Seq<u8>
    recommends
        (s matches Some(cs) ==> vstd::utf8::encode_utf8(cs).len() <= 255),
{
    match s {
        None => seq![0u8],
        Some(cs) => seq![0x0bu8, vstd::utf8::encode_utf8(cs).len() as u8]
            + vstd::utf8::encode_utf8(cs),
    }
}

/// The view of an optional owned string.
pub open spec fn opt_string_view(s: Option<String>) -> Option<Seq<char>> {
    match s {
        None => None,
        Some(st) => Some(st@),
    }
}

/// The view of an optional borrowed string.
pub open spec fn opt_str_view(s: Option<&str>) -> Option<Seq<char>> {
    match s {
        None => None,
        Some(st) => Some(st@),
    }
}

/// Writing any string field of up to 255 bytes and reading it back yields
/// the string unchanged, with the bytes after it untouched: an absent
/// string stays absent, an empty or non-empty present string comes back as
/// it was written.
pub proof fn lemma_string_marker_round_trip(s: Option<Seq<char>>, rest: Seq<u8>)
    requires
        s matches Some(cs) ==> vstd::utf8::encode_utf8(cs).len() <= 255,
    ensures
        stake_string(spec_write_string(s) + rest) == Ok::<_, Error>((s, rest)),
{
    let b = spec_write_string(s) + rest;
    match s {
        None => {
            assert(b[0] == 0u8);
            assert(b.skip(1) =~= rest);
        },
        Some(cs) => {
            let enc = vstd::utf8::encode_utf8(cs);
            let n = enc.len() as int;
            assert(b[0] == 0x0bu8);
            assert(b[1] == n as u8);
            assert(b.len() == 2 + n + rest.len());
            assert(b.subrange(2, 2 + n) =~= enc);
            assert(vstd::utf8::valid_utf8(enc));
            assert(vstd::utf8::decode_utf8(enc) == cs);
            assert(b.skip(2 + n) =~= rest);
        },
    }
}

/// One written byte reads back off the front.
pub proof fn lemma_stake_u8_of(v: u8, rest: Seq<u8>)
    ensures
        stake_u8(seq![v] + rest) == Ok::<_, Error>((v, rest)),
{
    let b = seq![v] + rest;
    assert(b[0] == v);
    assert(b.skip(1) =~= rest);
}

/// A written 16-bit integer reads back off the front.
pub proof fn lemma_stake_u16_of(v: u16, rest: Seq<u8>)
    ensures
        stake_u16(vstd::bytes::spec_u16_to_le_bytes(v) + rest) == Ok::<_, Error>((v, rest)),
{
    vstd::bytes::lemma_auto_spec_u16_to_from_le_bytes();
    let b = vstd::bytes::spec_u16_to_le_bytes(v) + rest;
    assert(b.take(2) =~= vstd::bytes::spec_u16_to_le_bytes(v));
    assert(b.skip(2) =~= rest);
}

/// A written 32-bit integer reads back off the front.
pub proof fn lemma_stake_u32_of(v: u32, rest: Seq<u8>)
    ensures
        stake_u32(vstd::bytes::spec_u32_to_le_bytes(v) + rest) == Ok::<_, Error>((v, rest)),
{
    vstd::bytes::lemma_auto_spec_u32_to_from_le_bytes();
    let b = vstd::bytes::spec_u32_to_le_bytes(v) + rest;
    assert(b.take(4) =~= vstd::bytes::spec_u32_to_le_bytes(v));
    assert(b.skip(4) =~= rest);
}

/// A written 64-bit integer reads back off the front.
pub proof fn lemma_stake_u64_of(v: u64, rest: Seq<u8>)
    ensures
        stake_u64(vstd::bytes::spec_u64_to_le_bytes(v) + rest) == Ok::<_, Error>((v, rest)),
{
    vstd::bytes::lemma_auto_spec_u64_to_from_le_bytes();
    let b = vstd::bytes::spec_u64_to_le_bytes(v) + rest;
    assert(b.take(8) =~= vstd::bytes::spec_u64_to_le_bytes(v));
    assert(b.skip(8) =~= rest);
}

/// A written block of raw bytes reads back off the front.
pub proof fn lemma_stake_bytes_of(block: Seq<u8>, rest: Seq<u8>)
    ensures
        stake_bytes(block + rest, block.len() as int) == Ok::<_, Error>((block, rest)),
{
    let b = block + rest;
    assert(b.take(block.len() as int) =~= block);
    assert(b.skip(block.len() as int) =~= rest);
}

/// Bytes below 0x80 are one-byte UTF-8 scalars: such a buffer is valid
/// UTF-8 and decodes byte for byte.
pub proof fn lemma_ascii_bytes_utf8(b: Seq<u8>)
    requires
        forall|i: int| 0 <= i < b.len() ==> b[i] < 128,
    ensures
        vstd::utf8::valid_utf8(b),
        vstd::utf8::decode_utf8(b) == b.map_values(|x: u8| x as char),
    decreases b.len(),
{
    if b.len() == 0 {
        assert(vstd::utf8::decode_utf8(b) =~= b.map_values(|x: u8| x as char));
    } else {
        assert(vstd::utf8::is_leading_byte_width_1(b[0]));
        assert(vstd::utf8::length_of_first_scalar(b) == 1);
        assert(vstd::utf8::valid_first_scalar(b));
        let rest = vstd::utf8::pop_first_scalar(b);
        assert(rest =~= b.drop_first());
        assert forall|i: int| 0 <= i < rest.len() implies rest[i] < 128 by {
            assert(rest[i] == b[i + 1]);
        }
        lemma_ascii_bytes_utf8(rest);
        assert(vstd::utf8::decode_first_scalar(b) == (b[0] & 0x7F) as u32);
        let b0 = b[0];
        assert(b0 & 0x7F == b0) by (bit_vector)
            requires
                b0 < 128,
        ;
        assert(vstd::utf8::decode_utf8(b) =~= b.map_values(|x: u8| x as char));
    }
}

/// Relies on `String::from_utf8`: it decodes exactly the valid UTF-8
/// buffers and rejects every other buffer.
#[verifier::external_body]
pub(crate) fn string_from_utf8(bytes: Vec<u8>) -> (r: Result<String, Error>)
    ensures
        match r {
            Ok(s) => vstd::utf8::valid_utf8(bytes@) && s@ == vstd::utf8::decode_utf8(bytes@),
            Err(e) => !vstd::utf8::valid_utf8(bytes@) && e == Error::InvalidStringEncoding,
        },
{
    match String::from_utf8(bytes) {
        Ok(s) => Ok(s),
        Err(_) => Err(Error::InvalidStringEncoding),
    }
}

/// Read one byte off the cursor.
pub fn read_byte(buf: &Vec<u8>, pos: &mut usize) -> (r: Result<u8, Error>)
    requires
        *old(pos) <= buf@.len(),
    ensures
        *final(pos) <= buf@.len(),
        match r {
            Ok(v) => stake_u8(buf@.skip(*old(pos) as int)) == Ok::<_, Error>(
                (v, buf@.skip(*final(pos) as int)),
            ),
            Err(e) => stake_u8(buf@.skip(*old(pos) as int)) == Err::<(u8, Seq<u8>), _>(e)
                && *final(pos) == *old(pos),
        },
{
    let ghost b = buf@.skip(*pos as int);
    if *pos < buf.len() {
        let v = buf[*pos];
        assert(b[0] == v);
        *pos = *pos + 1;
        assert(buf@.skip(*pos as int) =~= b.skip(1));
        Ok(v)
    } else {
        assert(b.len() == 0);
        Err(Error::TruncatedInput)
    }
}

/// Read a little-endian 16-bit integer off the cursor.
pub fn read_short(buf: &Vec<u8>, pos: &mut usize) -> (r: Result<u16, Error>)
    requires
        *old(pos) <= buf@.len(),
    ensures
        *final(pos) <= buf@.len(),
        match r {
            Ok(v) => stake_u16(buf@.skip(*old(pos) as int)) == Ok::<_, Error>(
                (v, buf@.skip(*final(pos) as int)),
            ),
            Err(e) => stake_u16(buf@.skip(*old(pos) as int)) == Err::<(u16, Seq<u8>), _>(e)
                && *final(pos) == *old(pos),
        },
{
    let ghost b = buf@.skip(*pos as int);
    if buf.len() - *pos >= 2 {
        let sl = vstd::slice::slice_subrange(buf.as_slice(), *pos, *pos + 2);
        let v = vstd::bytes::u16_from_le_bytes(sl);
        assert(sl@ =~= b.take(2));
        *pos = *pos + 2;
        assert(buf@.skip(*pos as int) =~= b.skip(2));
        Ok(v)
    } else {
        assert(b.len() < 2);
        Err(Error::TruncatedInput)
    }
}

/// Read a little-endian 32-bit integer off the cursor.
pub fn read_integer(buf: &Vec<u8>, pos: &mut usize) -> (r: Result<u32, Error>)
    requires
        *old(pos) <= buf@.len(),
    ensures
        *final(pos) <= buf@.len(),
        match r {
            Ok(v) => stake_u32(buf@.skip(*old(pos) as int)) == Ok::<_, Error>(
                (v, buf@.skip(*final(pos) as int)),
            ),
            Err(e) => stake_u32(buf@.skip(*old(pos) as int)) == Err::<(u32, Seq<u8>), _>(e)
                && *final(pos) == *old(pos),
        },
{
    let ghost b = buf@.skip(*pos as int);
    if buf.len() - *pos >= 4 {
        let sl = vstd::slice::slice_subrange(buf.as_slice(), *pos, *pos + 4);
        let v = vstd::bytes::u32_from_le_bytes(sl);
        assert(sl@ =~= b.take(4));
        *pos = *pos + 4;
        assert(buf@.skip(*pos as int) =~= b.skip(4));
        Ok(v)
    } else {
        assert(b.len() < 4);
        Err(Error::TruncatedInput)
    }
}

/// Read a little-endian 64-bit integer off the cursor.
pub fn read_long(buf: &Vec<u8>, pos: &mut usize) -> (r: Result<u64, Error>)
    requires
        *old(pos) <= buf@.len(),
    ensures
        *final(pos) <= buf@.len(),
        match r {
            Ok(v) => stake_u64(buf@.skip(*old(pos) as int)) == Ok::<_, Error>(
                (v, buf@.skip(*final(pos) as int)),
            ),
            Err(e) => stake_u64(buf@.skip(*old(pos) as int)) == Err::<(u64, Seq<u8>), _>(e)
                && *final(pos) == *old(pos),
        },
{
    let ghost b = buf@.skip(*pos as int);
    if buf.len() - *pos >= 8 {
        let sl = vstd::slice::slice_subrange(buf.as_slice(), *pos, *pos + 8);
        let v = vstd::bytes::u64_from_le_bytes(sl);
        assert(sl@ =~= b.take(8));
        *pos = *pos + 8;
        assert(buf@.skip(*pos as int) =~= b.skip(8));
        Ok(v)
    } else {
        assert(b.len() < 8);
        Err(Error::TruncatedInput)
    }
}

/// Read `n` raw bytes off the cursor.
pub fn read_bytes(buf: &Vec<u8>, pos: &mut usize, n: usize) -> (r: Result<Vec<u8>, Error>)
    requires
        *old(pos) <= buf@.len(),
    ensures
        *final(pos) <= buf@.len(),
        match r {
            Ok(v) => stake_bytes(buf@.skip(*old(pos) as int), n as int) == Ok::<_, Error>(
                (v@, buf@.skip(*final(pos) as int)),
            ),
            Err(e) => stake_bytes(buf@.skip(*old(pos) as int), n as int) == Err::<
                (Seq<u8>, Seq<u8>),
                _,
            >(e) && *final(pos) == *old(pos),
        },
{
    let ghost b = buf@.skip(*pos as int);
    if buf.len() - *pos >= n {
        let sl = vstd::slice::slice_subrange(buf.as_slice(), *pos, *pos + n);
        let v = vstd::slice::slice_to_vec(sl);
        assert(v@ =~= b.take(n as int));
        *pos = *pos + n;
        assert(buf@.skip(*pos as int) =~= b.skip(n as int));
        Ok(v)
    } else {
        assert(b.len() < n);
        Err(Error::TruncatedInput)
    }
}

/// Read a marker-prefixed string off the cursor.
pub fn read_string(buf: &Vec<u8>, pos: &mut usize) -> (r: Result<Option<String>, Error>)
    requires
        *old(pos) <= buf@.len(),
    ensures
        *final(pos) <= buf@.len(),
        match r {
            Ok(os) => stake_string(buf@.skip(*old(pos) as int)) == Ok::<_, Error>(
                (opt_string_view(os), buf@.skip(*final(pos) as int)),
            ),
            Err(e) => stake_string(buf@.skip(*old(pos) as int)) == Err::<
                (Option<Seq<char>>, Seq<u8>),
                _,
            >(e),
        },
{
    let ghost b = buf@.skip(*pos as int);
    let marker = match read_byte(buf, pos) {
        Ok(m) => m,
        Err(e) => {
            return Err(e);
        },
    };
    if marker == 0u8 {
        assert(buf@.skip(*pos as int) =~= b.skip(1));
        return Ok(None);
    }
    if marker != 0x0bu8 {
        return Err(Error::MalformedStringMarker);
    }
    let n = match read_byte(buf, pos) {
        Ok(m) => m,
        Err(e) => {
            assert(b.len() < 2);
            return Err(e);
        },
    };
    assert(b[1] == n);
    let ghost after_len = buf@.skip(*pos as int);
    assert(after_len =~= b.skip(2));
    let payload = match read_bytes(buf, pos, n as usize) {
        Ok(p) => p,
        Err(e) => {
            assert(b.len() < 2 + n as int);
            return Err(e);
        },
    };
    proof {
        assert(payload@ == after_len.take(n as int));
        assert(payload@ =~= b.subrange(2, 2 + n as int));
        assert(buf@.skip(*pos as int) == after_len.skip(n as int));
        assert(after_len.skip(n as int) =~= b.skip(2 + n as int));
    }
    match string_from_utf8(payload) {
        Ok(s) => Ok(Some(s)),
        Err(e) => Err(e),
    }
}

/// Append a little-endian 16-bit integer.
pub fn write_short(v: u16, buf: &mut Vec<u8>)
    ensures
        final(buf)@ == old(buf)@ + vstd::bytes::spec_u16_to_le_bytes(v),
{
    let mut bytes = vstd::bytes::u16_to_le_bytes(v);
    buf.append(&mut bytes);
}

/// Append a little-endian 32-bit integer.
pub fn write_integer(v: u32, buf: &mut Vec<u8>)
    ensures
        final(buf)@ == old(buf)@ + vstd::bytes::spec_u32_to_le_bytes(v),
{
    let mut bytes = vstd::bytes::u32_to_le_bytes(v);
    buf.append(&mut bytes);
}

/// Append a little-endian 64-bit integer.
pub fn write_long(v: u64, buf: &mut Vec<u8>)
    ensures
        final(buf)@ == old(buf)@ + vstd::bytes::spec_u64_to_le_bytes(v),
{
    let mut bytes = vstd::bytes::u64_to_le_bytes(v);
    buf.append(&mut bytes);
}

/// Append a marker-prefixed string field.
///
/// A present string of more than 255 bytes does not fit its length byte;
/// it is refused with `StringTooLong` and the buffer is left as it was.
pub fn write_string(s: &Option<&str>, buf: &mut Vec<u8>) -> (r: Result<(), Error>)
    ensures
        match r {
            Ok(_) => (match opt_str_view(*s) {
                Some(cs) => vstd::utf8::encode_utf8(cs).len() <= 255,
                None => true,
            }) && final(buf)@ == old(buf)@ + spec_write_string(opt_str_view(*s)),
            Err(e) => e == Error::StringTooLong && (match opt_str_view(*s) {
                Some(cs) => vstd::utf8::encode_utf8(cs).len() > 255,
                None => false,
            }) && final(buf)@ == old(buf)@,
        },
{
    match s {
        None => {
            buf.push(0u8);
            assert(final(buf)@ =~= old(buf)@ + spec_write_string(opt_str_view(*s)));
            Ok(())
        },
        Some(st) => {
            let mut bytes = st.as_bytes_vec();
            if bytes.len() > 255 {
                return Err(Error::StringTooLong);
            }
            buf.push(0x0bu8);
            buf.push(bytes.len() as u8);
            buf.append(&mut bytes);
            assert(final(buf)@ =~= old(buf)@ + spec_write_string(opt_str_view(*s)));
            Ok(())
        },
    }
}

} // verus!
