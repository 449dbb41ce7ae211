//! The protocol-buffer wire encoding: base-128 varints, zig-zag integers and
//! the field stream of a message.
use vstd::prelude::*;

verus! {

/// `128` to the power `n`.
pub open spec fn pow128(n: nat) -> nat
    decreases n,
{
    if n == 0 {
        1
    } else {
        128 * pow128((n - 1) as nat)
    }
}

/// The number whose base-128 digits, least significant first, are the low
/// seven bits of each byte of `b`.
pub open spec fn digits_value(b: Seq<u8>) -> nat
    decreases b.len(),
{
    if b.len() == 0 {
        0
    } else {
        digits_value(b.drop_last()) + (b.last() % 128) as nat * pow128((b.len() - 1) as nat)
    }
}

/// The length of the varint that begins `b`, looking from index `i` on: the
/// first byte without its high bit ends it, and a varint has at most ten bytes.
pub open spec fn varint_end(b: Seq<u8>, i: nat) -> Option<nat>
    decreases 10 - i,
{
    if i >= 10 || i >= b.len() {
        None
    } else if b[i as int] < 128 {
        Some(i + 1)
    } else {
        varint_end(b, i + 1)
    }
}

/// The varint at the start of `b`: its value and its length in bytes. A varint
/// whose value does not fit in 64 bits is malformed.
pub open spec fn varint_at(b: Seq<u8>) -> Option<(u64, nat)> {
    match varint_end(b, 0) {
        Some(n) => {
            let v = digits_value(b.take(n as int));
            if v < 0x1_0000_0000_0000_0000 {
                Some((v as u64, n))
            } else {
                None
            }
        },
        None => None,
    }
}

/// The signed integer that the zig-zag encoding maps to `n`.
pub open spec fn zigzag(n: u64) -> int {
    if n % 2 == 0 {
        (n / 2) as int
    } else {
        -((n / 2) as int) - 1
    }
}

proof fn lemma_pow128_monotonic(a: nat, b: nat)
    requires
        a <= b,
    ensures
        pow128(a) <= pow128(b),
    decreases b,
{
    if a < b {
        lemma_pow128_monotonic(a, (b - 1) as nat);
    }
}

proof fn lemma_digits_bound(b: Seq<u8>)
    ensures
        digits_value(b) < pow128(b.len()),
    decreases b.len(),
{
    if b.len() > 0 {
        let n = (b.len() - 1) as nat;
        lemma_digits_bound(b.drop_last());
        let d = (b.last() % 128) as nat;
        let p = pow128(n);
        let rest = digits_value(b.drop_last());
        assert(rest + d * p < 128 * p) by (nonlinear_arith)
            requires
                rest < p,
                d < 128,
        ;
    }
}

proof fn lemma_varint_end_skips(b: Seq<u8>, i: nat)
    requires
        i < 10,
        i < b.len(),
        b[i as int] >= 128,
    ensures
        varint_end(b, i) == varint_end(b, i + 1),
{
}

proof fn lemma_varint_end_after(b: Seq<u8>, i: nat)
    ensures
        varint_end(b, i) matches Some(n) ==> i < n <= b.len() && n <= 10,
    decreases 10 - i,
{
    if i < 10 && i < b.len() && b[i as int] >= 128 {
        lemma_varint_end_after(b, i + 1);
    }
}

proof fn lemma_pow128_nine()
    ensures
        pow128(9) == 0x8000_0000_0000_0000,
{
    reveal_with_fuel(pow128, 10);
}

/// The length of a varint is at least one byte and no more than what is there.
proof fn lemma_varint_len(b: Seq<u8>)
    ensures
        varint_at(b) matches Some((v, n)) ==> 1 <= n <= b.len() && n <= 10,
{
    lemma_varint_end_after(b, 0);
}

/// Reads the varint that starts at `pos`; gives its value and the position
/// just past it.
pub fn read_varint(b: &[u8], pos: usize) -> (r: Option<(u64, usize)>)
    requires
        pos <= b@.len(),
    ensures
        match varint_at(b@.skip(pos as int)) {
            Some((v, n)) => r matches Some((w, q)) && w == v && q == pos + n,
            None => r is None,
        },
{
    let ghost rest = b@.skip(pos as int);
    let mut i: usize = 0;
    let mut acc: u128 = 0;
    let mut mult: u128 = 1;
    proof {
        lemma_varint_end_after(rest, 0);
    }
    while i < 10 && i < b.len() - pos
        invariant
            pos <= b@.len(),
            rest == b@.skip(pos as int),
            i <= 10,
            i <= rest.len(),
            acc as nat == digits_value(rest.take(i as int)),
            mult as nat == pow128(i as nat),
            varint_end(rest, 0) == varint_end(rest, i as nat),
        decreases 10 - i,
    {
        let byte = b[pos + i];
        assert(byte == rest[i as int]);
        proof {
            lemma_digits_bound(rest.take(i as int));
            lemma_pow128_monotonic(i as nat, 9);
            lemma_pow128_nine();
            let d = (byte % 128) as nat;
            let a = acc as nat;
            let m = mult as nat;
            assert(a + d * m < 128 * m) by (nonlinear_arith)
                requires
                    a < m,
                    d < 128,
            ;
            assert(rest.take(i + 1).drop_last() =~= rest.take(i as int));
        }
        acc = acc + (byte % 128) as u128 * mult;
        mult = mult * 128;
        i = i + 1;
        if byte < 128 {
            if acc < 0x1_0000_0000_0000_0000 {
                return Some((acc as u64, pos + i));
            } else {
                return None;
            }
        }
        proof {
            lemma_varint_end_skips(rest, (i - 1) as nat);
        }
    }
    None
}

/// How a field's value is laid out on the wire. A length-delimited value is
/// given by the range of the message's bytes that it occupies.
#[derive(Clone, Copy, Debug, PartialEq, Eq)]
pub enum WireValue {
    Varint(u64),
    Fixed64,
    Bytes(usize, usize),
    Fixed32,
}

/// One field of a message: its number and its value.
#[derive(Clone, Copy, Debug, PartialEq, Eq)]
pub struct Field {
    pub number: u64,
    pub value: WireValue,
}

/// A length-delimited value lies within the message.
pub open spec fn field_in_bounds(f: Field, len: nat) -> bool {
    f.value matches WireValue::Bytes(s, e) ==> s <= e <= len
}

/// Every length-delimited value lies within the message.
pub open spec fn all_in_bounds(fs: Seq<Field>, len: nat) -> bool {
    forall|i: int| 0 <= i < fs.len() ==> field_in_bounds(#[trigger] fs[i], len)
}

/// The field that starts at `pos`, and the position just past it. Field number
/// zero and the group wire types are malformed.
pub open spec fn field_at(b: Seq<u8>, pos: nat) -> Option<(Field, nat)> {
    match varint_at(b.skip(pos as int)) {
        None => None,
        Some((tag, n)) => {
            let p = pos + n;
            let number = tag / 8;
            let wire_type = tag % 8;
            if number == 0 {
                None
            } else if wire_type == 0 {
                match varint_at(b.skip(p as int)) {
                    Some((v, m)) => Some(
                        (Field { number: number as u64, value: WireValue::Varint(v) }, p + m),
                    ),
                    None => None,
                }
            } else if wire_type == 1 {
                if p + 8 <= b.len() {
                    Some((Field { number: number as u64, value: WireValue::Fixed64 }, p + 8))
                } else {
                    None
                }
            } else if wire_type == 2 {
                match varint_at(b.skip(p as int)) {
                    Some((l, m)) => if p + m + l <= b.len() {
                        Some(
                            (
                                Field {
                                    number: number as u64,
                                    value: WireValue::Bytes((p + m) as usize, (p + m + l) as usize),
                                },
                                p + m + l as nat,
                            ),
                        )
                    } else {
                        None
                    },
                    None => None,
                }
            } else if wire_type == 5 {
                if p + 4 <= b.len() {
                    Some((Field { number: number as u64, value: WireValue::Fixed32 }, p + 4))
                } else {
                    None
                }
            } else {
                None
            }
        },
    }
}

/// The fields of the message bytes `b` from `pos` on, in order.
pub open spec fn fields_from(b: Seq<u8>, pos: nat) -> Option<Seq<Field>>
    decreases b.len() - pos,
    via fields_from_decreases
{
    if pos >= b.len() {
        Some(seq![])
    } else {
        match field_at(b, pos) {
            Some((f, next)) => match fields_from(b, next) {
                Some(rest) => Some(seq![f] + rest),
                None => None,
            },
            None => None,
        }
    }
}

#[via_fn]
proof fn fields_from_decreases(b: Seq<u8>, pos: nat) {
    if pos < b.len() {
        lemma_field_at_advances(b, pos);
    }
}

/// The fields of the message `b`, in order; `None` where `b` is malformed.
pub open spec fn fields_of(b: Seq<u8>) -> Option<Seq<Field>> {
    fields_from(b, 0)
}

proof fn lemma_field_at_advances(b: Seq<u8>, pos: nat)
    requires
        pos <= b.len(),
    ensures
        field_at(b, pos) matches Some((f, next)) ==> pos < next <= b.len() && (b.len()
            <= usize::MAX ==> field_in_bounds(f, b.len())),
{
    lemma_varint_len(b.skip(pos as int));
    if let Some((tag, n)) = varint_at(b.skip(pos as int)) {
        let p = pos + n;
        assert(p <= b.len());
        lemma_varint_len(b.skip(p as int));
        assert(b.skip(p as int).len() == b.len() - p);
    }
}

/// Reads the field that starts at `pos`.
pub fn read_field(b: &[u8], pos: usize) -> (r: Option<(Field, usize)>)
    requires
        pos <= b@.len(),
    ensures
        match field_at(b@, pos as nat) {
            Some((f, next)) => r matches Some((g, q)) && g == f && q == next,
            None => r is None,
        },
        r matches Some((f, next)) ==> pos < next <= b@.len() && field_in_bounds(f, b@.len()),
{
    proof {
        lemma_field_at_advances(b@, pos as nat);
        lemma_varint_len(b@.skip(pos as int));
    }
    let (tag, p) = match read_varint(b, pos) {
        Some(x) => x,
        None => return None,
    };
    proof {
        lemma_varint_len(b@.skip(p as int));
        assert(b@.skip(p as int).len() == b@.len() - p);
    }
    let number = tag / 8;
    let wire_type = tag % 8;
    if number == 0 {
        None
    } else if wire_type == 0 {
        match read_varint(b, p) {
            Some((v, q)) => Some((Field { number, value: WireValue::Varint(v) }, q)),
            None => None,
        }
    } else if wire_type == 1 {
        if b.len() - p >= 8 {
            Some((Field { number, value: WireValue::Fixed64 }, p + 8))
        } else {
            None
        }
    } else if wire_type == 2 {
        match read_varint(b, p) {
            Some((l, q)) => {
                if l <= (b.len() - q) as u64 {
                    let e = q + l as usize;
                    Some((Field { number, value: WireValue::Bytes(q, e) }, e))
                } else {
                    None
                }
            },
            None => None,
        }
    } else if wire_type == 5 {
        if b.len() - p >= 4 {
            Some((Field { number, value: WireValue::Fixed32 }, p + 4))
        } else {
            None
        }
    } else {
        None
    }
}

/// Splits the message `b` into its fields.
pub fn parse_fields(b: &[u8]) -> (r: Option<Vec<Field>>)
    ensures
        r is Some <==> fields_of(b@) is Some,
        r matches Some(fs) ==> fs@ == fields_of(b@).unwrap() && all_in_bounds(fs@, b@.len()),
{
    let mut out: Vec<Field> = Vec::new();
    let mut pos: usize = 0;
    while pos < b.len()
        invariant
            pos <= b@.len(),
            match fields_from(b@, pos as nat) {
                Some(rest) => fields_of(b@) == Some(out@ + rest),
                None => fields_of(b@) is None,
            },
            forall|i: int| 0 <= i < out@.len() ==> field_in_bounds(#[trigger] out@[i], b@.len()),
        decreases b@.len() - pos,
    {
        match read_field(b, pos) {
            Some((f, next)) => {
                proof {
                    if let Some(rest) = fields_from(b@, next as nat) {
                        assert(out@ + (seq![f] + rest) =~= out@.push(f) + rest);
                    }
                }
                out.push(f);
                pos = next;
            },
            None => {
                return None;
            },
        }
    }
    assert(out@ + seq![] =~= out@);
    Some(out)
}

/// The varints packed one after another in `b` from `pos` on.
pub open spec fn packed_from(b: Seq<u8>, pos: nat) -> Option<Seq<u64>>
    decreases b.len() - pos,
    via packed_from_decreases
{
    if pos >= b.len() {
        Some(seq![])
    } else {
        match varint_at(b.skip(pos as int)) {
            Some((v, n)) => match packed_from(b, pos + n) {
                Some(rest) => Some(seq![v] + rest),
                None => None,
            },
            None => None,
        }
    }
}

#[via_fn]
proof fn packed_from_decreases(b: Seq<u8>, pos: nat) {
    if pos < b.len() {
        lemma_varint_len(b.skip(pos as int));
    }
}

/// The values of the repeated varint field `num`, in order: each occurrence is
/// either one varint or a length-delimited run of packed varints.
pub open spec fn repeated_varints(b: Seq<u8>, fs: Seq<Field>, num: u64) -> Option<Seq<u64>>
    decreases fs.len(),
{
    if fs.len() == 0 {
        Some(seq![])
    } else {
        match repeated_varints(b, fs.drop_last(), num) {
            None => None,
            Some(prev) => {
                let f = fs.last();
                if f.number != num {
                    Some(prev)
                } else {
                    match f.value {
                        WireValue::Varint(v) => Some(prev.push(v)),
                        WireValue::Bytes(s, e) => match packed_from(b.subrange(s as int, e as int), 0) {
                            Some(vs) => Some(prev + vs),
                            None => None,
                        },
                        _ => None,
                    }
                }
            },
        }
    }
}

/// The value of the last occurrence of the single varint field `num`
/// (`Some(None)` where it does not occur; `None` where one occurrence is not a
/// varint).
pub open spec fn last_varint(fs: Seq<Field>, num: u64) -> Option<Option<u64>>
    decreases fs.len(),
{
    if fs.len() == 0 {
        Some(None)
    } else {
        match last_varint(fs.drop_last(), num) {
            None => None,
            Some(prev) => {
                let f = fs.last();
                if f.number != num {
                    Some(prev)
                } else {
                    match f.value {
                        WireValue::Varint(v) => Some(Some(v)),
                        _ => None,
                    }
                }
            },
        }
    }
}

/// The contents of every occurrence of the length-delimited field `num`, in
/// order (`None` where one occurrence is not length-delimited).
pub open spec fn repeated_bytes(b: Seq<u8>, fs: Seq<Field>, num: u64) -> Option<Seq<Seq<u8>>>
    decreases fs.len(),
{
    if fs.len() == 0 {
        Some(seq![])
    } else {
        match repeated_bytes(b, fs.drop_last(), num) {
            None => None,
            Some(prev) => {
                let f = fs.last();
                if f.number != num {
                    Some(prev)
                } else {
                    match f.value {
                        WireValue::Bytes(s, e) => Some(prev.push(b.subrange(s as int, e as int))),
                        _ => None,
                    }
                }
            },
        }
    }
}

/// The contents of all occurrences of `num` joined, as a message field whose
/// occurrences merge.
pub open spec fn join(parts: Seq<Seq<u8>>) -> Seq<u8>
    decreases parts.len(),
{
    if parts.len() == 0 {
        seq![]
    } else {
        join(parts.drop_last()) + parts.last()
    }
}

/// Reads the packed varints of `b[s..e]` onto the end of `out`.
fn read_packed(b: &[u8], s: usize, e: usize, out: &mut Vec<u64>) -> (ok: bool)
    requires
        s <= e <= b@.len(),
    ensures
        match packed_from(b@.subrange(s as int, e as int), 0) {
            Some(vs) => ok && final(out)@ == old(out)@ + vs,
            None => !ok,
        },
{
    let part = &b[s..e];
    let ghost start = out@;
    let mut pos: usize = 0;
    while pos < part.len()
        invariant
            pos <= part@.len(),
            part@ == b@.subrange(s as int, e as int),
            match packed_from(part@, pos as nat) {
                Some(rest) => packed_from(part@, 0) == Some(out@.skip(start.len() as int) + rest)
                    && out@.take(start.len() as int) == start && start.len() <= out@.len(),
                None => packed_from(part@, 0) is None,
            },
        decreases part@.len() - pos,
    {
        proof {
            lemma_varint_len(part@.skip(pos as int));
        }
        match read_varint(part, pos) {
            Some((v, next)) => {
                proof {
                    if let Some(rest) = packed_from(part@, next as nat) {
                        assert(out@.skip(start.len() as int) + (seq![v] + rest) =~= out@.push(
                            v,
                        ).skip(start.len() as int) + rest);
                        assert(out@.push(v).take(start.len() as int) =~= start);
                    }
                }
                out.push(v);
                pos = next;
            },
            None => {
                return false;
            },
        }
    }
    assert(out@.skip(start.len() as int) + seq![] =~= out@.skip(start.len() as int));
    assert(out@ =~= start + out@.skip(start.len() as int));
    true
}

/// Collects the values of the repeated varint field `num`.
pub fn collect_varints(b: &[u8], fs: &Vec<Field>, num: u64) -> (r: Option<Vec<u64>>)
    requires
        all_in_bounds(fs@, b@.len()),
    ensures
        r is Some <==> repeated_varints(b@, fs@, num) is Some,
        r matches Some(v) ==> v@ == repeated_varints(b@, fs@, num).unwrap(),
{
    let mut out: Vec<u64> = Vec::new();
    let mut i: usize = 0;
    while i < fs.len()
        invariant
            i <= fs@.len(),
            all_in_bounds(fs@, b@.len()),
            repeated_varints(b@, fs@.take(i as int), num) == Some(out@),
        decreases fs@.len() - i,
    {
        let f = fs[i];
        assert(fs@.take(i + 1).drop_last() =~= fs@.take(i as int));
        if f.number == num {
            match f.value {
                WireValue::Varint(v) => {
                    out.push(v);
                },
                WireValue::Bytes(s, e) => {
                    assert(field_in_bounds(fs@[i as int], b@.len()));
                    if !read_packed(b, s, e, &mut out) {
                        proof {
                            lemma_repeated_varints_none_extends(b@, fs@, num, i as nat + 1);
                        }
                        return None;
                    }
                },
                _ => {
                    proof {
                        lemma_repeated_varints_none_extends(b@, fs@, num, i as nat + 1);
                    }
                    return None;
                },
            }
        }
        i = i + 1;
    }
    assert(fs@.take(fs@.len() as int) =~= fs@);
    Some(out)
}

proof fn lemma_repeated_varints_none_extends(b: Seq<u8>, fs: Seq<Field>, num: u64, k: nat)
    requires
        k <= fs.len(),
        repeated_varints(b, fs.take(k as int), num) is None,
    ensures
        repeated_varints(b, fs, num) is None,
    decreases fs.len() - k,
{
    if k < fs.len() {
        assert(fs.take(k + 1 as int).drop_last() =~= fs.take(k as int));
        lemma_repeated_varints_none_extends(b, fs, num, k + 1);
    } else {
        assert(fs.take(k as int) =~= fs);
    }
}

/// Finds the value of the single varint field `num`: its last occurrence.
pub fn find_varint(fs: &Vec<Field>, num: u64) -> (r: Option<Option<u64>>)
    ensures
        r == last_varint(fs@, num),
{
    let mut out: Option<u64> = None;
    let mut i: usize = 0;
    while i < fs.len()
        invariant
            i <= fs@.len(),
            last_varint(fs@.take(i as int), num) == Some(out),
        decreases fs@.len() - i,
    {
        let f = fs[i];
        assert(fs@.take(i + 1).drop_last() =~= fs@.take(i as int));
        if f.number == num {
            match f.value {
                WireValue::Varint(v) => {
                    out = Some(v);
                },
                _ => {
                    proof {
                        lemma_last_varint_none_extends(fs@, num, i as nat + 1);
                    }
                    return None;
                },
            }
        }
        i = i + 1;
    }
    assert(fs@.take(fs@.len() as int) =~= fs@);
    Some(out)
}

proof fn lemma_last_varint_none_extends(fs: Seq<Field>, num: u64, k: nat)
    requires
        k <= fs.len(),
        last_varint(fs.take(k as int), num) is None,
    ensures
        last_varint(fs, num) is None,
    decreases fs.len() - k,
{
    if k < fs.len() {
        assert(fs.take(k + 1 as int).drop_last() =~= fs.take(k as int));
        lemma_last_varint_none_extends(fs, num, k + 1);
    } else {
        assert(fs.take(k as int) =~= fs);
    }
}

/// The views of a list of byte vectors.
pub open spec fn byte_views(v: Seq<Vec<u8>>) -> Seq<Seq<u8>> {
    v.map_values(|x: Vec<u8>| x@)
}

/// Collects the contents of every occurrence of the length-delimited field `num`.
pub fn collect_bytes(b: &[u8], fs: &Vec<Field>, num: u64) -> (r: Option<Vec<Vec<u8>>>)
    requires
        all_in_bounds(fs@, b@.len()),
    ensures
        r is Some <==> repeated_bytes(b@, fs@, num) is Some,
        r matches Some(v) ==> byte_views(v@) == repeated_bytes(b@, fs@, num).unwrap(),
{
    let mut out: Vec<Vec<u8>> = Vec::new();
    let mut i: usize = 0;
    while i < fs.len()
        invariant
            i <= fs@.len(),
            all_in_bounds(fs@, b@.len()),
            repeated_bytes(b@, fs@.take(i as int), num) == Some(byte_views(out@)),
        decreases fs@.len() - i,
    {
        let f = fs[i];
        assert(fs@.take(i + 1).drop_last() =~= fs@.take(i as int));
        if f.number == num {
            match f.value {
                WireValue::Bytes(s, e) => {
                    assert(field_in_bounds(fs@[i as int], b@.len()));
                    let part = vstd::slice::slice_to_vec(&b[s..e]);
                    let ghost before = out@;
                    let ghost pv = part@;
                    out.push(part);
                    assert(byte_views(out@) =~= byte_views(before).push(pv));
                },
                _ => {
                    proof {
                        lemma_repeated_bytes_none_extends(b@, fs@, num, i as nat + 1);
                    }
                    return None;
                },
            }
        }
        i = i + 1;
    }
    assert(fs@.take(fs@.len() as int) =~= fs@);
    Some(out)
}

proof fn lemma_repeated_bytes_none_extends(b: Seq<u8>, fs: Seq<Field>, num: u64, k: nat)
    requires
        k <= fs.len(),
        repeated_bytes(b, fs.take(k as int), num) is None,
    ensures
        repeated_bytes(b, fs, num) is None,
    decreases fs.len() - k,
{
    if k < fs.len() {
        assert(fs.take(k + 1 as int).drop_last() =~= fs.take(k as int));
        lemma_repeated_bytes_none_extends(b, fs, num, k + 1);
    } else {
        assert(fs.take(k as int) =~= fs);
    }
}

/// Joins byte vectors end to end.
pub fn join_bytes(parts: &Vec<Vec<u8>>) -> (r: Vec<u8>)
    ensures
        r@ == join(byte_views(parts@)),
{
    let mut out: Vec<u8> = Vec::new();
    let mut i: usize = 0;
    while i < parts.len()
        invariant
            i <= parts@.len(),
            out@ == join(byte_views(parts@.take(i as int))),
        decreases parts@.len() - i,
    {
        let mut part = vstd::slice::slice_to_vec(parts[i].as_slice());
        assert(byte_views(parts@.take(i + 1)).drop_last() =~= byte_views(parts@.take(i as int)));
        out.append(&mut part);
        i = i + 1;
    }
    assert(parts@.take(parts@.len() as int) =~= parts@);
    out
}

/// Decodes a zig-zag encoded signed integer.
pub fn decode_zigzag(n: u64) -> (r: i64)
    ensures
        r as int == zigzag(n),
{
    if n % 2 == 0 {
        (n / 2) as i64
    } else {
        -((n / 2) as i64) - 1
    }
}

/// A varint read as a two's-complement `int64`.
pub open spec fn int64_of(v: u64) -> i64 {
    if v < 0x8000_0000_0000_0000 {
        v as i64
    } else {
        (v - 0x1_0000_0000_0000_0000) as i64
    }
}

/// A varint read as an `int32`: its low 32 bits in two's complement.
pub open spec fn int32_of(v: u64) -> i32 {
    let low = v % 0x1_0000_0000;
    if low < 0x8000_0000 {
        low as i32
    } else {
        (low - 0x1_0000_0000) as i32
    }
}

/// A varint read as a `uint32`: its low 32 bits.
pub open spec fn uint32_of(v: u64) -> u32 {
    (v % 0x1_0000_0000) as u32
}

/// A varint read as a zig-zag `sint64`.
pub open spec fn sint64_of(v: u64) -> i64 {
    zigzag(v) as i64
}

/// Reads a varint as an `int64`.
pub fn to_int64(v: u64) -> (r: i64)
    ensures
        r == int64_of(v),
{
    if v < 0x8000_0000_0000_0000 {
        v as i64
    } else {
        ((v - 0x8000_0000_0000_0000) as i64) - 0x7fff_ffff_ffff_ffff - 1
    }
}

/// Reads a varint as an `int32`.
pub fn to_int32(v: u64) -> (r: i32)
    ensures
        r == int32_of(v),
{
    let low = v % 0x1_0000_0000;
    if low < 0x8000_0000 {
        low as i32
    } else {
        ((low - 0x8000_0000) as i32) - 0x7fff_ffff - 1
    }
}

/// Reads a varint as a `uint32`.
pub fn to_uint32(v: u64) -> (r: u32)
    ensures
        r == uint32_of(v),
{
    (v % 0x1_0000_0000) as u32
}

/// Reads every value as a zig-zag `sint64`.
pub fn to_sint64s(vs: &Vec<u64>) -> (r: Vec<i64>)
    ensures
        r@ == vs@.map_values(|v: u64| sint64_of(v)),
{
    let mut out: Vec<i64> = Vec::new();
    let mut i: usize = 0;
    while i < vs.len()
        invariant
            i <= vs@.len(),
            out@ == vs@.take(i as int).map_values(|v: u64| sint64_of(v)),
        decreases vs@.len() - i,
    {
        let x = decode_zigzag(vs[i]);
        out.push(x);
        assert(vs@.take(i + 1).map_values(|v: u64| sint64_of(v)) =~= vs@.take(i as int).map_values(
            |v: u64| sint64_of(v),
        ).push(x));
        i = i + 1;
    }
    assert(vs@.take(vs@.len() as int) =~= vs@);
    out
}

/// Reads every value as a `uint32`.
pub fn to_uint32s(vs: &Vec<u64>) -> (r: Vec<u32>)
    ensures
        r@ == vs@.map_values(|v: u64| uint32_of(v)),
{
    let mut out: Vec<u32> = Vec::new();
    let mut i: usize = 0;
    while i < vs.len()
        invariant
            i <= vs@.len(),
            out@ == vs@.take(i as int).map_values(|v: u64| uint32_of(v)),
        decreases vs@.len() - i,
    {
        let x = to_uint32(vs[i]);
        out.push(x);
        assert(vs@.take(i + 1).map_values(|v: u64| uint32_of(v)) =~= vs@.take(i as int).map_values(
            |v: u64| uint32_of(v),
        ).push(x));
        i = i + 1;
    }
    assert(vs@.take(vs@.len() as int) =~= vs@);
    out
}

/// Reads every value as an `int32`.
pub fn to_int32s(vs: &Vec<u64>) -> (r: Vec<i32>)
    ensures
        r@ == vs@.map_values(|v: u64| int32_of(v)),
{
    let mut out: Vec<i32> = Vec::new();
    let mut i: usize = 0;
    while i < vs.len()
        invariant
            i <= vs@.len(),
            out@ == vs@.take(i as int).map_values(|v: u64| int32_of(v)),
        decreases vs@.len() - i,
    {
        let x = to_int32(vs[i]);
        out.push(x);
        assert(vs@.take(i + 1).map_values(|v: u64| int32_of(v)) =~= vs@.take(i as int).map_values(
            |v: u64| int32_of(v),
        ).push(x));
        i = i + 1;
    }
    assert(vs@.take(vs@.len() as int) =~= vs@);
    out
}

/// The repeated `sint64` field `num`.
pub open spec fn sint64_list(b: Seq<u8>, fs: Seq<Field>, num: u64) -> Option<Seq<i64>> {
    match repeated_varints(b, fs, num) {
        Some(vs) => Some(vs.map_values(|v: u64| sint64_of(v))),
        None => None,
    }
}

/// The repeated `uint32` field `num`.
pub open spec fn uint32_list(b: Seq<u8>, fs: Seq<Field>, num: u64) -> Option<Seq<u32>> {
    match repeated_varints(b, fs, num) {
        Some(vs) => Some(vs.map_values(|v: u64| uint32_of(v))),
        None => None,
    }
}

/// The repeated `int32` field `num`.
pub open spec fn int32_list(b: Seq<u8>, fs: Seq<Field>, num: u64) -> Option<Seq<i32>> {
    match repeated_varints(b, fs, num) {
        Some(vs) => Some(vs.map_values(|v: u64| int32_of(v))),
        None => None,
    }
}

/// Reads the repeated `sint64` field `num`.
pub fn read_sint64_list(b: &[u8], fs: &Vec<Field>, num: u64) -> (r: Option<Vec<i64>>)
    requires
        all_in_bounds(fs@, b@.len()),
    ensures
        match sint64_list(b@, fs@, num) {
            Some(s) => r matches Some(v) && v@ == s,
            None => r is None,
        },
{
    match collect_varints(b, fs, num) {
        Some(vs) => Some(to_sint64s(&vs)),
        None => None,
    }
}

/// Reads the repeated `uint32` field `num`.
pub fn read_uint32_list(b: &[u8], fs: &Vec<Field>, num: u64) -> (r: Option<Vec<u32>>)
    requires
        all_in_bounds(fs@, b@.len()),
    ensures
        match uint32_list(b@, fs@, num) {
            Some(s) => r matches Some(v) && v@ == s,
            None => r is None,
        },
{
    match collect_varints(b, fs, num) {
        Some(vs) => Some(to_uint32s(&vs)),
        None => None,
    }
}

/// Reads the repeated `int32` field `num`.
pub fn read_int32_list(b: &[u8], fs: &Vec<Field>, num: u64) -> (r: Option<Vec<i32>>)
    requires
        all_in_bounds(fs@, b@.len()),
    ensures
        match int32_list(b@, fs@, num) {
            Some(s) => r matches Some(v) && v@ == s,
            None => r is None,
        },
{
    match collect_varints(b, fs, num) {
        Some(vs) => Some(to_int32s(&vs)),
        None => None,
    }
}

} // verus!
