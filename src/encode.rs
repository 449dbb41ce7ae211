//! Writing the protocol-buffer wire encoding: varints, field keys and
//! length-delimited values.
use vstd::prelude::*;
use crate::wire::{digits_value, field_at, pow128, varint_at, varint_end, Field, WireValue};

verus! {

/// The bytes of the varint of `v`, shortest form.
pub open spec fn varint_bytes(v: u64) -> Seq<u8>
    decreases v,
{
    if v < 128 {
        seq![v as u8]
    } else {
        seq![(v % 128 + 128) as u8] + varint_bytes(v / 128)
    }
}

/// The key of field `num` with wire type `wire_type`.
pub open spec fn key_bytes(num: u64, wire_type: u64) -> Seq<u8> {
    varint_bytes((num * 8 + wire_type) as u64)
}

/// Field `num` holding the length-delimited value `data`.
pub open spec fn bytes_field(num: u64, data: Seq<u8>) -> Seq<u8> {
    key_bytes(num, 2) + varint_bytes(data.len() as u64) + data
}

/// Field `num` holding the varint `v`.
pub open spec fn varint_field(num: u64, v: u64) -> Seq<u8> {
    key_bytes(num, 0) + varint_bytes(v)
}

/// The varint that carries an `int32`: negative values are sign-extended to
/// 64 bits.
pub open spec fn int32_wire(v: i32) -> u64 {
    if v >= 0 {
        v as u64
    } else {
        (v + 0x1_0000_0000_0000_0000) as u64
    }
}

/// Appends the varint of `v`.
pub fn write_varint(out: &mut Vec<u8>, v: u64)
    ensures
        final(out)@ == old(out)@ + varint_bytes(v),
{
    let ghost start = out@;
    let mut rest = v;
    while rest >= 128
        invariant
            start + varint_bytes(v) == out@ + varint_bytes(rest),
        decreases rest,
    {
        let byte = (rest % 128 + 128) as u8;
        assert(out@ + varint_bytes(rest) =~= out@.push(byte) + varint_bytes(rest / 128));
        out.push(byte);
        rest = rest / 128;
    }
    let byte = rest as u8;
    assert(out@ + varint_bytes(rest) =~= out@.push(byte));
    out.push(byte);
}

/// Appends the key of field `num` with wire type `wire_type`.
pub fn write_key(out: &mut Vec<u8>, num: u64, wire_type: u64)
    requires
        1 <= num < 0x2000_0000,
        wire_type < 8,
    ensures
        final(out)@ == old(out)@ + key_bytes(num, wire_type),
{
    write_varint(out, num * 8 + wire_type);
}

/// Appends field `num` holding the length-delimited value `data`.
pub fn write_bytes_field(out: &mut Vec<u8>, num: u64, data: &[u8])
    requires
        1 <= num < 0x2000_0000,
    ensures
        final(out)@ == old(out)@ + bytes_field(num, data@),
{
    write_key(out, num, 2);
    write_varint(out, data.len() as u64);
    let mut copy = vstd::slice::slice_to_vec(data);
    out.append(&mut copy);
    assert(final(out)@ =~= old(out)@ + bytes_field(num, data@));
}

/// Appends field `num` holding the varint `v`.
pub fn write_varint_field(out: &mut Vec<u8>, num: u64, v: u64)
    requires
        1 <= num < 0x2000_0000,
    ensures
        final(out)@ == old(out)@ + varint_field(num, v),
{
    write_key(out, num, 0);
    write_varint(out, v);
    assert(final(out)@ =~= old(out)@ + varint_field(num, v));
}

/// The varint that carries the `int32` `v`.
pub fn int32_to_wire(v: i32) -> (r: u64)
    ensures
        r == int32_wire(v),
{
    if v >= 0 {
        v as u64
    } else {
        0xffff_ffff_ffff_ffff - ((-(v as i64) - 1) as u64)
    }
}

proof fn lemma_digits_prepend(b: u8, s: Seq<u8>)
    ensures
        digits_value(seq![b] + s) == (b % 128) as nat + 128 * digits_value(s),
    decreases s.len(),
{
    let t = seq![b] + s;
    if s.len() == 0 {
        assert(t =~= seq![b]);
        assert(t.drop_last() =~= Seq::<u8>::empty());
        assert(digits_value(Seq::<u8>::empty()) == 0);
        assert(pow128(0) == 1);
        assert(digits_value(t) == digits_value(t.drop_last()) + (t.last() % 128) as nat * pow128(0));
    } else {
        assert(t.drop_last() =~= seq![b] + s.drop_last());
        assert(t.last() == s.last());
        assert(digits_value(t) == digits_value(t.drop_last()) + (t.last() % 128) as nat * pow128(
            (t.len() - 1) as nat,
        ));
        assert(digits_value(s) == digits_value(s.drop_last()) + (s.last() % 128) as nat * pow128(
            (s.len() - 1) as nat,
        ));
        lemma_digits_prepend(b, s.drop_last());
        let d = (s.last() % 128) as nat;
        let p = pow128((s.len() - 1) as nat);
        let rest = digits_value(s.drop_last());
        assert(pow128(s.len() as nat) == 128 * p);
        assert((b % 128) as nat + 128 * rest + d * (128 * p) == (b % 128) as nat + 128 * (rest + d
            * p)) by (nonlinear_arith);
    }
}

proof fn lemma_varint_bytes_value(v: u64)
    ensures
        digits_value(varint_bytes(v)) == v,
    decreases v,
{
    if v < 128 {
        let t = seq![v as u8];
        assert(t.drop_last() =~= Seq::<u8>::empty());
        assert(digits_value(Seq::<u8>::empty()) == 0);
        assert(pow128(0) == 1);
        assert(digits_value(t) == digits_value(t.drop_last()) + (t.last() % 128) as nat * pow128(0));
    } else {
        let b = (v % 128 + 128) as u8;
        lemma_varint_bytes_value(v / 128);
        lemma_digits_prepend(b, varint_bytes(v / 128));
        assert(varint_bytes(v) == seq![b] + varint_bytes(v / 128));
        assert(b % 128 == v % 128);
        assert(v % 128 + 128 * (v / 128) == v);
    }
}

proof fn lemma_varint_bytes_shape(v: u64)
    ensures
        1 <= varint_bytes(v).len() <= 10,
        varint_bytes(v).last() < 128,
        forall|j: int| 0 <= j < varint_bytes(v).len() - 1 ==> #[trigger] varint_bytes(v)[j] >= 128,
    decreases v,
{
    lemma_pow128_ten();
    lemma_varint_bytes_short(v, 10);
    if v >= 128 {
        lemma_varint_bytes_shape(v / 128);
        let tail = varint_bytes(v / 128);
        assert forall|j: int| 0 <= j < varint_bytes(v).len() - 1 implies #[trigger] varint_bytes(
            v,
        )[j] >= 128 by {
            if j > 0 {
                assert(varint_bytes(v)[j] == tail[j - 1]);
            }
        }
    }
}

proof fn lemma_varint_bytes_short(v: u64, k: nat)
    requires
        1 <= k,
        v < pow128(k),
    ensures
        varint_bytes(v).len() <= k,
    decreases k,
{
    if v >= 128 {
        if k == 1 {
            assert(pow128(1) == 128) by {
                reveal_with_fuel(pow128, 2);
            }
        } else {
            let p = pow128((k - 1) as nat);
            assert(pow128(k) == 128 * p);
            assert(v / 128 < p) by (nonlinear_arith)
                requires
                    v < 128 * p,
            ;
            lemma_varint_bytes_short(v / 128, (k - 1) as nat);
        }
    }
}

proof fn lemma_pow128_ten()
    ensures
        pow128(10) == 0x40_0000_0000_0000_0000,
{
    reveal_with_fuel(pow128, 11);
}

proof fn lemma_varint_end_of_written(v: u64, rest: Seq<u8>, i: nat)
    requires
        i < varint_bytes(v).len(),
    ensures
        varint_end(varint_bytes(v) + rest, i) == Some(varint_bytes(v).len() as nat),
    decreases varint_bytes(v).len() - i,
{
    let s = varint_bytes(v) + rest;
    lemma_pow128_ten();
    lemma_varint_bytes_shape(v);
    assert(s[i as int] == varint_bytes(v)[i as int]);
    if i + 1 < varint_bytes(v).len() {
        lemma_varint_end_of_written(v, rest, i + 1);
    }
}

/// A varint written by `write_varint` reads back as the same value and
/// length, whatever bytes follow it.
pub proof fn lemma_varint_round_trip(v: u64, rest: Seq<u8>)
    ensures
        varint_at(varint_bytes(v) + rest) == Some((v, varint_bytes(v).len() as nat)),
{
    lemma_pow128_ten();
    lemma_varint_bytes_shape(v);
    lemma_varint_end_of_written(v, rest, 0);
    lemma_varint_bytes_value(v);
    assert((varint_bytes(v) + rest).take(varint_bytes(v).len() as int) =~= varint_bytes(v));
}

/// A varint field written at `pos` of `b` reads back as that field.
pub proof fn lemma_read_varint_field(b: Seq<u8>, pos: nat, num: u64, v: u64)
    requires
        1 <= num < 0x2000_0000,
        pos + varint_field(num, v).len() <= b.len(),
        b.subrange(pos as int, (pos + varint_field(num, v).len()) as int) == varint_field(num, v),
    ensures
        field_at(b, pos) == Some(
            (Field { number: num, value: WireValue::Varint(v) }, pos + varint_field(num, v).len()),
        ),
{
    let key = (num * 8) as u64;
    let kb = varint_bytes(key);
    let vb = varint_bytes(v);
    let end = pos + kb.len() + vb.len();
    let after = b.skip(end as int);
    assert(varint_field(num, v) == kb + vb);
    assert(b.skip(pos as int) =~= kb + (vb + after)) by {
        assert(b.subrange(pos as int, end as int) == kb + vb);
    }
    lemma_varint_round_trip(key, vb + after);
    assert(b.skip((pos + kb.len()) as int) =~= b.skip(pos as int).skip(kb.len() as int));
    assert((kb + (vb + after)).skip(kb.len() as int) =~= vb + after);
    lemma_varint_round_trip(v, after);
    assert(key / 8 == num && key % 8 == 0);
}

/// A length-delimited field written at `pos` of `b` reads back as that
/// field, its value the range that `data` occupies.
pub proof fn lemma_read_bytes_field(b: Seq<u8>, pos: nat, num: u64, data: Seq<u8>)
    requires
        1 <= num < 0x2000_0000,
        b.len() <= usize::MAX,
        pos + bytes_field(num, data).len() <= b.len(),
        b.subrange(pos as int, (pos + bytes_field(num, data).len()) as int) == bytes_field(num, data),
    ensures
        ({
            let start = pos + key_bytes(num, 2).len() + varint_bytes(data.len() as u64).len();
            &&& field_at(b, pos) == Some(
                (
                    Field {
                        number: num,
                        value: WireValue::Bytes(start as usize, (start + data.len()) as usize),
                    },
                    pos + bytes_field(num, data).len(),
                ),
            )
            &&& b.subrange(start as int, (start + data.len()) as int) == data
            &&& start + data.len() == pos + bytes_field(num, data).len()
        }),
{
    let key = (num * 8 + 2) as u64;
    let kb = varint_bytes(key);
    let lb = varint_bytes(data.len() as u64);
    let enc = bytes_field(num, data);
    let end = pos + enc.len();
    let after = b.skip(end as int);
    assert(enc == kb + lb + data);
    assert(b.subrange(pos as int, end as int) == enc);
    assert(b.skip(pos as int) =~= kb + (lb + (data + after)));
    lemma_varint_round_trip(key, lb + (data + after));
    assert(b.skip((pos + kb.len()) as int) =~= b.skip(pos as int).skip(kb.len() as int));
    assert((kb + (lb + (data + after))).skip(kb.len() as int) =~= lb + (data + after));
    lemma_varint_round_trip(data.len() as u64, data + after);
    assert(key / 8 == num && key % 8 == 2);
    let start = pos + kb.len() + lb.len();
    assert(b.subrange(start as int, (start + data.len()) as int) =~= b.skip(pos as int).subrange(
        (kb.len() + lb.len()) as int,
        (kb.len() + lb.len() + data.len()) as int,
    ));
    assert((kb + (lb + (data + after))).subrange(
        (kb.len() + lb.len()) as int,
        (kb.len() + lb.len() + data.len()) as int,
    ) =~= data);
}

/// An `int32` written as a varint reads back as itself.
pub proof fn lemma_int32_round_trip(v: i32)
    ensures
        crate::wire::int32_of(int32_wire(v)) == v,
{
}

} // verus!
