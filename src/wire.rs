//! The wire format's building blocks: base-128 varints, little-endian fixed
//! integers, protobuf field keys, and the record frame (a `0x0A` tag, a varint
//! payload length, the payload).

use vstd::prelude::*;

verus! {

/// The tag byte that starts every record.
pub const RECORD_TAG: u8 = 0x0A;

/// The base-128 varint of `v`: seven bits per byte, least significant group
/// first, the high bit set on every byte but the last.
pub open spec fn varint(v: nat) -> Seq<u8>
    decreases v,
{
    if v < 128 {
        seq![v as u8]
    } else {
        seq![(v % 128 + 128) as u8] + varint(v / 128)
    }
}

/// The `n` low bytes of `v`, least significant first.
pub open spec fn le_bytes(v: nat, n: nat) -> Seq<u8>
    decreases n,
{
    if n == 0 {
        Seq::empty()
    } else {
        seq![(v % 256) as u8] + le_bytes(v / 256, (n - 1) as nat)
    }
}

/// A protobuf field key: field number and wire type.
pub open spec fn key(field: nat, wire_type: nat) -> Seq<u8> {
    varint(field * 8 + wire_type)
}

/// A varint field.
pub open spec fn varint_field(field: nat, v: nat) -> Seq<u8> {
    key(field, 0) + varint(v)
}

/// A fixed 64-bit field.
pub open spec fn fixed64_field(field: nat, v: nat) -> Seq<u8> {
    key(field, 1) + le_bytes(v, 8)
}

/// A length-delimited field.
pub open spec fn bytes_field(field: nat, b: Seq<u8>) -> Seq<u8> {
    key(field, 2) + varint(b.len()) + b
}

/// A record: the tag, the payload length, the payload.
pub open spec fn frame(payload: Seq<u8>) -> Seq<u8> {
    seq![RECORD_TAG] + varint(payload.len()) + payload
}

/// Appends the varint of `v`.
pub fn put_varint(out: &mut Vec<u8>, v: u64)
    ensures
        final(out)@ == old(out)@ + varint(v as nat),
{
    let mut cur: u64 = v;
    while cur >= 128
        invariant
            out@ + varint(cur as nat) == old(out)@ + varint(v as nat),
        decreases cur,
    {
        let ghost before = out@;
        out.push((cur % 128 + 128) as u8);
        assert(out@ + varint((cur / 128) as nat) =~= before + varint(cur as nat));
        cur = cur / 128;
    }
    let ghost before = out@;
    out.push(cur as u8);
    assert(out@ =~= before + varint(cur as nat));
}

/// Appends the eight bytes of `v`, least significant first.
pub fn put_fixed64(out: &mut Vec<u8>, v: u64)
    ensures
        final(out)@ == old(out)@ + le_bytes(v as nat, 8),
{
    let mut cur: u64 = v;
    let mut i: u64 = 0;
    while i < 8
        invariant
            i <= 8,
            out@ + le_bytes(cur as nat, (8 - i) as nat) == old(out)@ + le_bytes(v as nat, 8),
        decreases 8 - i,
    {
        let ghost before = out@;
        out.push((cur % 256) as u8);
        assert(out@ + le_bytes((cur / 256) as nat, (8 - (i + 1)) as nat) =~= before + le_bytes(
            cur as nat,
            (8 - i) as nat,
        ));
        cur = cur / 256;
        i = i + 1;
    }
    assert(le_bytes(cur as nat, 0) =~= Seq::<u8>::empty());
    assert(out@ =~= out@ + le_bytes(cur as nat, 0));
}

/// Appends a field key.
pub fn put_key(out: &mut Vec<u8>, field: u64, wire_type: u64)
    requires
        field < 0x1000_0000,
        wire_type < 8,
    ensures
        final(out)@ == old(out)@ + key(field as nat, wire_type as nat),
{
    put_varint(out, field * 8 + wire_type);
}

/// Appends a varint field.
pub fn put_varint_field(out: &mut Vec<u8>, field: u64, v: u64)
    requires
        field < 0x1000_0000,
    ensures
        final(out)@ == old(out)@ + varint_field(field as nat, v as nat),
{
    put_key(out, field, 0);
    put_varint(out, v);
    assert(final(out)@ =~= old(out)@ + varint_field(field as nat, v as nat));
}

/// Appends a fixed 64-bit field.
pub fn put_fixed64_field(out: &mut Vec<u8>, field: u64, v: u64)
    requires
        field < 0x1000_0000,
    ensures
        final(out)@ == old(out)@ + fixed64_field(field as nat, v as nat),
{
    put_key(out, field, 1);
    put_fixed64(out, v);
    assert(final(out)@ =~= old(out)@ + fixed64_field(field as nat, v as nat));
}

/// Appends all of `b`.
pub fn put_bytes(out: &mut Vec<u8>, b: &[u8])
    ensures
        final(out)@ == old(out)@ + b@,
{
    let mut i: usize = 0;
    while i < b.len()
        invariant
            i <= b@.len(),
            out@ == old(out)@ + b@.subrange(0, i as int),
        decreases b@.len() - i,
    {
        out.push(b[i]);
        i = i + 1;
        assert(out@ =~= old(out)@ + b@.subrange(0, i as int));
    }
    assert(b@.subrange(0, b@.len() as int) =~= b@);
}

/// Appends a length-delimited field.
pub fn put_bytes_field(out: &mut Vec<u8>, field: u64, b: &[u8])
    requires
        field < 0x1000_0000,
    ensures
        final(out)@ == old(out)@ + bytes_field(field as nat, b@),
{
    put_key(out, field, 2);
    put_varint(out, b.len() as u64);
    put_bytes(out, b);
    assert(final(out)@ =~= old(out)@ + bytes_field(field as nat, b@));
}

/// Appends a string field: its UTF-8 bytes, length-delimited.
pub fn put_string_field(out: &mut Vec<u8>, field: u64, s: &str)
    requires
        field < 0x1000_0000,
    ensures
        final(out)@ == old(out)@ + bytes_field(field as nat, vstd::utf8::encode_utf8(s@)),
{
    put_bytes_field(out, field, s.as_bytes());
}

/// Appends a record that frames `payload`.
pub fn put_frame(out: &mut Vec<u8>, payload: &[u8])
    ensures
        final(out)@ == old(out)@ + frame(payload@),
{
    out.push(RECORD_TAG);
    put_varint(out, payload.len() as u64);
    put_bytes(out, payload);
    assert(final(out)@ =~= old(out)@ + frame(payload@));
}

} // verus!
