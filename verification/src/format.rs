//! The byte formats of a pack: its header, the headers of its objects and the
//! offsets of its delta objects.

use vstd::prelude::*;

verus! {

/// The length of the header of a pack.
pub const PACK_HEADER_LEN: usize = 12;

/// The header of a pack of `object_number` objects: the letters `PACK`, the
/// version 2 and the number of objects, both as four bytes with the highest first.
pub open spec fn pack_header(object_number: nat) -> Seq<u8> {
    seq![
        0x50u8,
        0x41u8,
        0x43u8,
        0x4bu8,
        0u8,
        0u8,
        0u8,
        2u8,
        (object_number / 0x1000000) as u8,
        ((object_number / 0x10000) % 256) as u8,
        ((object_number / 0x100) % 256) as u8,
        (object_number % 256) as u8,
    ]
}

/// The number of objects that the header of a pack announces.
pub open spec fn announced_objects(pack: Seq<u8>) -> Option<nat> {
    if pack.len() >= 12 && pack.take(8) == seq![
        0x50u8,
        0x41u8,
        0x43u8,
        0x4bu8,
        0u8,
        0u8,
        0u8,
        2u8,
    ] {
        let (high, upper) = (pack[8] as nat, pack[9] as nat);
        let (lower, low) = (pack[10] as nat, pack[11] as nat);
        Some(high * 0x1000000 + upper * 0x10000 + lower * 0x100 + low)
    } else {
        None
    }
}

/// The groups of seven bits of `size`, lowest first, each in a byte whose highest
/// bit tells that another one follows. Nothing for zero.
pub open spec fn size_tail(size: nat) -> Seq<u8>
    decreases size,
{
    if size == 0 {
        seq![]
    } else if size < 128 {
        seq![size as u8]
    } else {
        seq![(size % 128 + 128) as u8] + size_tail(size / 128)
    }
}

/// The header of an object: its kind and the four lowest bits of its size in the
/// first byte, then the rest of the size.
pub open spec fn object_header(kind: u8, size: nat) -> Seq<u8> {
    seq![
        (kind * 16 + size % 16 + if size >= 16 {
            128int
        } else {
            0int
        }) as u8,
    ] + size_tail(size / 16)
}

/// Reads a number from groups of seven bits, lowest first: the number and how many
/// bytes it takes.
pub open spec fn read_size_tail(bytes: Seq<u8>) -> Option<(nat, nat)>
    decreases bytes.len(),
{
    if bytes.len() == 0 {
        None
    } else if bytes[0] < 128 {
        Some((bytes[0] as nat, 1))
    } else {
        match read_size_tail(bytes.skip(1)) {
            Some((value, used)) => Some(((bytes[0] % 128) as nat + 128 * value, used + 1)),
            None => None,
        }
    }
}

/// Reads the header of an object: its kind, its size and how many bytes the header
/// takes.
pub open spec fn read_object_header(bytes: Seq<u8>) -> Option<(u8, nat, nat)> {
    if bytes.len() == 0 {
        None
    } else if bytes[0] < 128 {
        Some((bytes[0] / 16, (bytes[0] % 16) as nat, 1))
    } else {
        match read_size_tail(bytes.skip(1)) {
            Some((value, used)) => Some(
                ((bytes[0] / 16 - 8) as u8, (bytes[0] % 16) as nat + 16 * value, used + 1),
            ),
            None => None,
        }
    }
}

/// All but the last byte of an offset. Every byte has its highest bit set, and
/// every step to the left takes one off, so that no offset has two forms.
pub open spec fn offset_prefix(value: nat) -> Seq<u8>
    decreases value,
{
    if value < 128 {
        seq![(value + 128) as u8]
    } else {
        offset_prefix((value / 128 - 1) as nat).push((value % 128 + 128) as u8)
    }
}

/// The bytes of the distance from a delta object back to its base, highest first.
pub open spec fn offset_bytes(value: nat) -> Seq<u8> {
    if value < 128 {
        seq![value as u8]
    } else {
        offset_prefix((value / 128 - 1) as nat).push((value % 128) as u8)
    }
}

/// Reads on in an offset whose bytes so far stand for `high`: the offset and how
/// many bytes were read.
pub open spec fn read_offset_from(high: nat, bytes: Seq<u8>) -> Option<(nat, nat)>
    decreases bytes.len(),
{
    if bytes.len() == 0 {
        None
    } else if bytes[0] < 128 {
        Some((high * 128 + bytes[0] as nat, 1))
    } else {
        match read_offset_from(high * 128 + (bytes[0] % 128) as nat + 1, bytes.skip(1)) {
            Some((value, used)) => Some((value, used + 1)),
            None => None,
        }
    }
}

/// Reads an offset: its value and how many bytes it takes.
pub open spec fn read_offset(bytes: Seq<u8>) -> Option<(nat, nat)> {
    read_offset_from(0, bytes)
}

/// Encodes the header of a pack: `PACK`, the version 2, the number of objects.
pub fn encode_header(object_number: usize) -> (r: Vec<u8>)
    requires
        0 < object_number <= u32::MAX,
    ensures
        r@ == pack_header(object_number as nat),
{
    let mut result: Vec<u8> = Vec::with_capacity(PACK_HEADER_LEN);
    result.push(0x50);
    result.push(0x41);
    result.push(0x43);
    result.push(0x4b);
    result.push(0);
    result.push(0);
    result.push(0);
    result.push(2);
    result.push((object_number / 0x1000000) as u8);
    result.push(((object_number / 0x10000) % 256) as u8);
    result.push(((object_number / 0x100) % 256) as u8);
    result.push((object_number % 256) as u8);
    assert(result@ =~= pack_header(object_number as nat));
    result
}

/// The bytes of `bytes` in reverse.
fn reversed(bytes: &Vec<u8>) -> (r: Vec<u8>)
    ensures
        r@ == bytes@.reverse(),
{
    let mut result: Vec<u8> = Vec::with_capacity(bytes.len());
    let mut i: usize = bytes.len();
    while i > 0
        invariant
            i <= bytes.len(),
            result.len() == bytes.len() - i,
            forall|k: int| 0 <= k < result.len() ==> result@[k] == bytes@[bytes.len() - 1 - k],
        decreases i,
    {
        i -= 1;
        result.push(bytes[i]);
    }
    assert(result@ =~= bytes@.reverse());
    result
}

/// Encodes the distance from a delta object back to its base.
pub fn encode_offset(value: usize) -> (r: Vec<u8>)
    requires
        value != 0,
    ensures
        r@ == offset_bytes(value as nat),
{
    let mut bytes: Vec<u8> = Vec::with_capacity(10);
    bytes.push((value % 128) as u8);
    let mut rest: usize = value / 128;
    assert(bytes@.reverse() =~= seq![(value % 128) as u8]);
    while rest != 0
        invariant
            offset_bytes(value as nat) =~= if rest == 0 {
                bytes@.reverse()
            } else {
                offset_prefix((rest - 1) as nat) + bytes@.reverse()
            },
        decreases rest,
    {
        rest -= 1;
        let byte: u8 = (rest % 128) as u8 + 128;
        let ghost before = bytes@;
        bytes.push(byte);
        assert(bytes@.reverse() =~= seq![byte] + before.reverse());
        rest = rest / 128;
    }
    reversed(&bytes)
}

/// Encodes the header of an object.
pub fn encode_object_header(kind: u8, size: usize) -> (r: Vec<u8>)
    requires
        kind < 8,
    ensures
        r@ == object_header(kind, size as nat),
{
    let mut encoded: Vec<u8> = Vec::with_capacity(16);
    let mut first_byte: u8 = kind * 16 + (size % 16) as u8;
    let mut rest: usize = size / 16;
    if rest != 0 {
        first_byte += 128;
    }
    encoded.push(first_byte);
    assert(encoded@ + size_tail(rest as nat) =~= object_header(kind, size as nat));
    while rest != 0
        invariant
            encoded@ + size_tail(rest as nat) =~= object_header(kind, size as nat),
        decreases rest,
    {
        let mut byte: u8 = (rest % 128) as u8;
        let ghost before = encoded@;
        let ghost tail = size_tail(rest as nat);
        rest = rest / 128;
        if rest != 0 {
            byte += 128;
        }
        encoded.push(byte);
        assert(tail =~= seq![byte] + size_tail(rest as nat));
        assert(encoded@ + size_tail(rest as nat) =~= before + tail);
    }
    encoded
}

/// The number of objects that was put into the header of a pack is read back from it.
pub proof fn header_round_trip(object_number: nat, rest: Seq<u8>)
    requires
        object_number <= u32::MAX,
    ensures
        announced_objects(pack_header(object_number) + rest) == Some(object_number),
{
    let header = pack_header(object_number);
    let pack = header + rest;
    assert(header.len() == 12);
    assert(pack.take(8) =~= header.take(8));
    assert(header.take(8) =~= seq![0x50u8, 0x41u8, 0x43u8, 0x4bu8, 0u8, 0u8, 0u8, 2u8]);
    assert(pack[8] == header[8] && pack[9] == header[9]);
    assert(pack[10] == header[10] && pack[11] == header[11]);
    four_bytes_make_the_number(object_number);
}

/// A number is made up of its four bytes.
proof fn four_bytes_make_the_number(n: nat)
    requires
        n <= u32::MAX,
    ensures
        n / 0x1000000 < 256,
        (n / 0x1000000) * 0x1000000 + ((n / 0x10000) % 256) * 0x10000 + ((n / 0x100) % 256) * 0x100
            + n % 256 == n,
{
    let (a, b, c) = (n / 0x100, n / 0x10000, n / 0x1000000);
    assert(a / 0x100 == b);
    assert(b / 0x100 == c);
    assert(n == a * 0x100 + n % 256);
    assert(a == b * 0x100 + a % 256);
    assert(b == c * 0x100 + b % 256);
}

/// The rest of a size is read back, whatever follows it.
proof fn size_tail_round_trip(size: nat, rest: Seq<u8>)
    requires
        size > 0,
    ensures
        read_size_tail(size_tail(size) + rest) == Some((size, size_tail(size).len())),
    decreases size,
{
    let bytes = size_tail(size) + rest;
    if size >= 128 {
        size_tail_round_trip(size / 128, rest);
        assert(bytes.skip(1) =~= size_tail(size / 128) + rest);
    }
}

/// The kind and the size that were put into the header of an object are read back
/// from it, whatever follows the header.
pub proof fn object_header_round_trip(kind: u8, size: nat, rest: Seq<u8>)
    requires
        kind < 8,
    ensures
        read_object_header(object_header(kind, size) + rest) == Some(
            (kind, size, object_header(kind, size).len()),
        ),
{
    let bytes = object_header(kind, size) + rest;
    if size >= 16 {
        size_tail_round_trip(size / 16, rest);
        assert(bytes.skip(1) =~= size_tail(size / 16) + rest);
    } else {
        assert(size_tail(0).len() == 0);
    }
}

/// Reading on behind the first bytes of an offset goes on from their value.
proof fn offset_prefix_round_trip(value: nat, rest: Seq<u8>)
    ensures
        read_offset_from(0, offset_prefix(value) + rest) == match read_offset_from(
            value + 1,
            rest,
        ) {
            Some((found, used)) => Some((found, used + offset_prefix(value).len())),
            None => None,
        },
    decreases value,
{
    let bytes = offset_prefix(value) + rest;
    if value < 128 {
        assert(bytes.skip(1) =~= rest);
    } else {
        let high = (value / 128 - 1) as nat;
        let byte = (value % 128 + 128) as u8;
        let tail = seq![byte] + rest;
        offset_prefix_round_trip(high, tail);
        assert(bytes =~= offset_prefix(high) + tail);
        assert(tail.skip(1) =~= rest);
        assert((high + 1) * 128 + (byte % 128) as nat == value);
    }
}

/// An offset is read back from its bytes, whatever follows them.
pub proof fn offset_round_trip(value: nat, rest: Seq<u8>)
    ensures
        read_offset(offset_bytes(value) + rest) == Some((value, offset_bytes(value).len())),
{
    let bytes = offset_bytes(value) + rest;
    if value >= 128 {
        let high = (value / 128 - 1) as nat;
        let tail = seq![(value % 128) as u8] + rest;
        offset_prefix_round_trip(high, tail);
        assert(bytes =~= offset_prefix(high) + tail);
        assert((high + 1) * 128 + value % 128 == value);
    }
}

} // verus!
