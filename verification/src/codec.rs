//! The byte-level building blocks of the ledger's binary format.
//!
//! Every integer is written little-endian in a fixed number of bytes, signed
//! integers in two's complement. A byte string is written as its length (eight
//! bytes) followed by its bytes, and a sequence of items as its length followed
//! by the items one after another. Each parser takes the front of its input and
//! hands back the value together with the input that is left.

use vstd::prelude::*;

verus! {

/// How many different values `width` bytes can hold: 256 to the power `width`.
pub open spec fn radix(width: nat) -> nat
    decreases width,
{
    if width == 0 {
        1
    } else {
        256 * radix((width - 1) as nat)
    }
}

/// The `width` low-order bytes of `n`, least significant byte first.
pub open spec fn le_bytes(n: nat, width: nat) -> Seq<u8>
    decreases width,
{
    if width == 0 {
        Seq::empty()
    } else {
        seq![(n % 256) as u8] + le_bytes(n / 256, (width - 1) as nat)
    }
}

/// The number that a little-endian byte string stands for.
pub open spec fn le_value(s: Seq<u8>) -> nat
    decreases s.len(),
{
    if s.len() == 0 {
        0
    } else {
        s[0] as nat + 256 * le_value(s.drop_first())
    }
}

/// The unsigned 64-bit pattern of a signed number (two's complement).
pub open spec fn i64_bits(x: i64) -> nat {
    if x >= 0 {
        x as nat
    } else {
        (x + 0x1_0000_0000_0000_0000) as nat
    }
}

/// The signed number behind a 64-bit pattern.
pub open spec fn i64_of_bits(n: nat) -> i64 {
    if n < 0x8000_0000_0000_0000 {
        n as i64
    } else {
        (n - 0x1_0000_0000_0000_0000) as i64
    }
}

/// The unsigned 32-bit pattern of a signed number (two's complement).
pub open spec fn i32_bits(x: i32) -> nat {
    if x >= 0 {
        x as nat
    } else {
        (x + 0x1_0000_0000) as nat
    }
}

/// The signed number behind a 32-bit pattern.
pub open spec fn i32_of_bits(n: nat) -> i32 {
    if n < 0x8000_0000 {
        n as i32
    } else {
        (n - 0x1_0000_0000) as i32
    }
}

/// An unsigned 64-bit number on the wire: eight bytes.
pub open spec fn encode_u64(x: u64) -> Seq<u8> {
    le_bytes(x as nat, 8)
}

/// An unsigned 32-bit number on the wire: four bytes.
pub open spec fn encode_u32(x: u32) -> Seq<u8> {
    le_bytes(x as nat, 4)
}

/// A signed 64-bit number on the wire: the eight bytes of its pattern.
pub open spec fn encode_i64(x: i64) -> Seq<u8> {
    le_bytes(i64_bits(x), 8)
}

/// A signed 32-bit number on the wire: the four bytes of its pattern.
pub open spec fn encode_i32(x: i32) -> Seq<u8> {
    le_bytes(i32_bits(x), 4)
}

/// A byte string on the wire: its length, then its bytes.
pub open spec fn encode_bytes(b: Seq<u8>) -> Seq<u8> {
    encode_u64(b.len() as u64) + b
}

/// Reads an unsigned 64-bit number from the front of `s`.
pub open spec fn parse_u64(s: Seq<u8>) -> Option<(u64, Seq<u8>)> {
    if s.len() < 8 {
        None
    } else {
        Some((le_value(s.take(8)) as u64, s.skip(8)))
    }
}

/// Reads an unsigned 32-bit number from the front of `s`.
pub open spec fn parse_u32(s: Seq<u8>) -> Option<(u32, Seq<u8>)> {
    if s.len() < 4 {
        None
    } else {
        Some((le_value(s.take(4)) as u32, s.skip(4)))
    }
}

/// Reads a signed 64-bit number from the front of `s`.
pub open spec fn parse_i64(s: Seq<u8>) -> Option<(i64, Seq<u8>)> {
    if s.len() < 8 {
        None
    } else {
        Some((i64_of_bits(le_value(s.take(8))), s.skip(8)))
    }
}

/// Reads a signed 32-bit number from the front of `s`.
pub open spec fn parse_i32(s: Seq<u8>) -> Option<(i32, Seq<u8>)> {
    if s.len() < 4 {
        None
    } else {
        Some((i32_of_bits(le_value(s.take(4))), s.skip(4)))
    }
}

/// Reads a length and then that many bytes; fails where the input is shorter
/// than the length it announces.
pub open spec fn parse_bytes(s: Seq<u8>) -> Option<(Seq<u8>, Seq<u8>)> {
    match parse_u64(s) {
        None => None,
        Some((n, rest)) => if n <= rest.len() {
            Some((rest.take(n as int), rest.skip(n as int)))
        } else {
            None
        },
    }
}

/// The items of a sequence one after another, each written by `enc`.
pub open spec fn encode_each<T>(items: Seq<T>, enc: spec_fn(T) -> Seq<u8>) -> Seq<u8>
    decreases items.len(),
{
    if items.len() == 0 {
        Seq::empty()
    } else {
        enc(items.first()) + encode_each(items.drop_first(), enc)
    }
}

/// Reads `count` items with `parse`, one after another.
pub open spec fn parse_each<T>(
    s: Seq<u8>,
    count: nat,
    parse: spec_fn(Seq<u8>) -> Option<(T, Seq<u8>)>,
) -> Option<(Seq<T>, Seq<u8>)>
    decreases count,
{
    if count == 0 {
        Some((Seq::empty(), s))
    } else {
        match parse(s) {
            None => None,
            Some((first, rest)) => match parse_each(rest, (count - 1) as nat, parse) {
                None => None,
                Some((others, tail)) => Some((seq![first] + others, tail)),
            },
        }
    }
}

/// A sequence on the wire: the number of items, then the items.
pub open spec fn encode_seq<T>(items: Seq<T>, enc: spec_fn(T) -> Seq<u8>) -> Seq<u8> {
    encode_u64(items.len() as u64) + encode_each(items, enc)
}

/// Reads a number of items and then that many items with `parse`.
pub open spec fn parse_seq<T>(
    s: Seq<u8>,
    parse: spec_fn(Seq<u8>) -> Option<(T, Seq<u8>)>,
) -> Option<(Seq<T>, Seq<u8>)> {
    match parse_u64(s) {
        None => None,
        Some((n, rest)) => parse_each(rest, n as nat, parse),
    }
}

/// `parse` reads back what `enc` wrote for `x`, whatever follows it.
pub open spec fn inverts<T>(
    parse: spec_fn(Seq<u8>) -> Option<(T, Seq<u8>)>,
    enc: spec_fn(T) -> Seq<u8>,
    x: T,
) -> bool {
    forall|rest: Seq<u8>| #[trigger] parse(enc(x) + rest) == Some((x, rest))
}

proof fn lemma_radix_table()
    ensures
        radix(0) == 1,
        radix(1) == 0x100,
        radix(2) == 0x1_0000,
        radix(3) == 0x100_0000,
        radix(4) == 0x1_0000_0000,
        radix(5) == 0x100_0000_0000,
        radix(6) == 0x1_0000_0000_0000,
        radix(7) == 0x100_0000_0000_0000,
        radix(8) == 0x1_0000_0000_0000_0000,
{
    reveal_with_fuel(radix, 10);
}

proof fn lemma_le_bytes_len(n: nat, width: nat)
    ensures
        le_bytes(n, width).len() == width,
    decreases width,
{
    if width > 0 {
        lemma_le_bytes_len(n / 256, (width - 1) as nat);
    }
}

proof fn lemma_le_value_bound(s: Seq<u8>)
    ensures
        le_value(s) < radix(s.len()),
    decreases s.len(),
{
    if s.len() > 0 {
        lemma_le_value_bound(s.drop_first());
    }
}

/// Reading back the bytes of a number that fits gives the number.
proof fn lemma_le_roundtrip(n: nat, width: nat)
    requires
        n < radix(width),
    ensures
        le_value(le_bytes(n, width)) == n,
    decreases width,
{
    if width > 0 {
        let s = le_bytes(n, width);
        assert(s.drop_first() =~= le_bytes(n / 256, (width - 1) as nat));
        lemma_le_roundtrip(n / 256, (width - 1) as nat);
    }
}

proof fn lemma_parse_u64(x: u64, rest: Seq<u8>)
    ensures
        parse_u64(encode_u64(x) + rest) == Some((x, rest)),
{
    let s = encode_u64(x) + rest;
    lemma_le_bytes_len(x as nat, 8);
    lemma_radix_table();
    lemma_le_roundtrip(x as nat, 8);
    assert(s.take(8) =~= encode_u64(x));
    assert(s.skip(8) =~= rest);
}

/// Reading what was written for `x` gives `x` and what follows.
pub proof fn lemma_parse_u32(x: u32, rest: Seq<u8>)
    ensures
        parse_u32(encode_u32(x) + rest) == Some((x, rest)),
{
    let s = encode_u32(x) + rest;
    lemma_le_bytes_len(x as nat, 4);
    lemma_radix_table();
    lemma_le_roundtrip(x as nat, 4);
    assert(s.take(4) =~= encode_u32(x));
    assert(s.skip(4) =~= rest);
}

/// Reading what was written for `x` gives `x` and what follows.
pub proof fn lemma_parse_i64(x: i64, rest: Seq<u8>)
    ensures
        parse_i64(encode_i64(x) + rest) == Some((x, rest)),
{
    let s = encode_i64(x) + rest;
    lemma_le_bytes_len(i64_bits(x), 8);
    lemma_radix_table();
    lemma_le_roundtrip(i64_bits(x), 8);
    assert(s.take(8) =~= encode_i64(x));
    assert(s.skip(8) =~= rest);
}

/// Reading what was written for `x` gives `x` and what follows.
pub proof fn lemma_parse_i32(x: i32, rest: Seq<u8>)
    ensures
        parse_i32(encode_i32(x) + rest) == Some((x, rest)),
{
    let s = encode_i32(x) + rest;
    lemma_le_bytes_len(i32_bits(x), 4);
    lemma_radix_table();
    lemma_le_roundtrip(i32_bits(x), 4);
    assert(s.take(4) =~= encode_i32(x));
    assert(s.skip(4) =~= rest);
}

/// Reading what was written for `b` gives `b` and what follows.
pub proof fn lemma_parse_bytes(b: Seq<u8>, rest: Seq<u8>)
    requires
        b.len() <= u64::MAX,
    ensures
        parse_bytes(encode_bytes(b) + rest) == Some((b, rest)),
{
    let n = b.len() as u64;
    lemma_parse_u64(n, b + rest);
    assert(encode_bytes(b) + rest =~= encode_u64(n) + (b + rest));
    assert((b + rest).take(n as int) =~= b);
    assert((b + rest).skip(n as int) =~= rest);
}

/// Writing one more item appends its bytes.
pub proof fn lemma_encode_each_push<T>(items: Seq<T>, x: T, enc: spec_fn(T) -> Seq<u8>)
    ensures
        encode_each(items.push(x), enc) == encode_each(items, enc) + enc(x),
    decreases items.len(),
{
    let all = items.push(x);
    if items.len() == 0 {
        assert(all.drop_first() =~= Seq::<T>::empty());
        assert(encode_each(all.drop_first(), enc) =~= Seq::<u8>::empty());
        assert(encode_each(all, enc) =~= enc(x));
        assert(encode_each(items, enc) + enc(x) =~= enc(x));
    } else {
        assert(all.drop_first() =~= items.drop_first().push(x));
        lemma_encode_each_push(items.drop_first(), x, enc);
        assert(encode_each(all, enc) =~= encode_each(items, enc) + enc(x));
    }
}

/// Where `parse` reads back each item, `parse_each` reads back the sequence.
proof fn lemma_parse_each<T>(
    items: Seq<T>,
    enc: spec_fn(T) -> Seq<u8>,
    parse: spec_fn(Seq<u8>) -> Option<(T, Seq<u8>)>,
    rest: Seq<u8>,
)
    requires
        forall|i: int| 0 <= i < items.len() ==> inverts(parse, enc, #[trigger] items[i]),
    ensures
        parse_each(encode_each(items, enc) + rest, items.len(), parse) == Some((items, rest)),
    decreases items.len(),
{
    if items.len() == 0 {
        assert(encode_each(items, enc) + rest =~= rest);
        assert(items =~= Seq::<T>::empty());
    } else {
        let first = items.first();
        let others = items.drop_first();
        let tail = encode_each(others, enc) + rest;
        assert(encode_each(items, enc) + rest =~= enc(first) + tail);
        assert(inverts(parse, enc, items[0]));
        assert(parse(enc(first) + tail) == Some((first, tail)));
        assert forall|i: int| 0 <= i < others.len() implies inverts(
            parse,
            enc,
            #[trigger] others[i],
        ) by {
            assert(others[i] == items[i + 1]);
        }
        lemma_parse_each(others, enc, parse, rest);
        assert(seq![first] + others =~= items);
    }
}

/// Where `parse` reads back each item, `parse_seq` reads back the sequence.
pub proof fn lemma_parse_seq<T>(
    items: Seq<T>,
    enc: spec_fn(T) -> Seq<u8>,
    parse: spec_fn(Seq<u8>) -> Option<(T, Seq<u8>)>,
    rest: Seq<u8>,
)
    requires
        items.len() <= u64::MAX,
        forall|i: int| 0 <= i < items.len() ==> inverts(parse, enc, #[trigger] items[i]),
    ensures
        parse_seq(encode_seq(items, enc) + rest, parse) == Some((items, rest)),
{
    let n = items.len() as u64;
    let body = encode_each(items, enc) + rest;
    lemma_parse_u64(n, body);
    assert(encode_seq(items, enc) + rest =~= encode_u64(n) + body);
    lemma_parse_each(items, enc, parse, rest);
}

/// Appends a copy of `data` to `out`.
pub fn append_bytes(out: &mut Vec<u8>, data: &[u8])
    ensures
        final(out)@ == old(out)@ + data@,
{
    let mut k: usize = 0;
    while k < data.len()
        invariant
            k <= data@.len(),
            out@ == old(out)@ + data@.take(k as int),
        decreases data@.len() - k,
    {
        out.push(data[k]);
        k += 1;
        assert(data@.take(k as int) =~= data@.take(k - 1).push(data@[k - 1]));
    }
    assert(data@.take(k as int) =~= data@);
}

/// A fresh vector holding the bytes of `data`.
pub fn copy_bytes(data: &[u8]) -> (out: Vec<u8>)
    ensures
        out@ == data@,
{
    let mut out: Vec<u8> = Vec::new();
    append_bytes(&mut out, data);
    assert(Seq::<u8>::empty() + data@ =~= data@);
    out
}

/// Whether two byte strings hold the same bytes.
pub fn bytes_eq(a: &[u8], b: &[u8]) -> (same: bool)
    ensures
        same == (a@ == b@),
{
    if a.len() != b.len() {
        return false;
    }
    let mut k: usize = 0;
    while k < a.len()
        invariant
            k <= a@.len(),
            a@.len() == b@.len(),
            a@.take(k as int) == b@.take(k as int),
        decreases a@.len() - k,
    {
        if a[k] != b[k] {
            return false;
        }
        k += 1;
        assert(a@.take(k as int) =~= a@.take(k - 1).push(a@[k - 1]));
        assert(b@.take(k as int) =~= b@.take(k - 1).push(b@[k - 1]));
    }
    assert(a@.take(k as int) =~= a@);
    assert(b@.take(k as int) =~= b@);
    true
}

/// Appends the `width` low-order bytes of `value`, least significant first.
pub fn write_le(out: &mut Vec<u8>, value: u64, width: usize)
    ensures
        final(out)@ == old(out)@ + le_bytes(value as nat, width as nat),
{
    let mut v: u64 = value;
    let mut k: usize = 0;
    while k < width
        invariant
            k <= width,
            out@ + le_bytes(v as nat, (width - k) as nat) == old(out)@ + le_bytes(
                value as nat,
                width as nat,
            ),
        decreases width - k,
    {
        let ghost before = out@;
        out.push((v % 256) as u8);
        proof {
            let tail = le_bytes((v / 256) as nat, (width - k - 1) as nat);
            assert(le_bytes(v as nat, (width - k) as nat) == seq![(v % 256) as u8] + tail);
            assert(out@ + tail =~= before + (seq![(v % 256) as u8] + tail));
        }
        v = v / 256;
        k += 1;
    }
    assert(out@ + Seq::<u8>::empty() =~= out@);
}

/// The number in the first `width` bytes of `data`, read little-endian.
pub fn read_le(data: &[u8], width: usize) -> (value: u64)
    requires
        width <= 8,
        width <= data@.len(),
    ensures
        value == le_value(data@.take(width as int)),
{
    let mut value: u64 = 0;
    let mut k: usize = width;
    while k > 0
        invariant
            k <= width <= 8,
            width <= data@.len(),
            value == le_value(data@.subrange(k as int, width as int)),
        decreases k,
    {
        k -= 1;
        proof {
            let hi = data@.subrange(k + 1, width as int);
            let all = data@.subrange(k as int, width as int);
            assert(all.drop_first() =~= hi);
            lemma_le_value_bound(hi);
            lemma_radix_table();
            assert(hi.len() <= 7);
            lemma_radix_grows(hi.len(), 7);
        }
        value = value * 256 + data[k] as u64;
    }
    value
}

proof fn lemma_radix_grows(a: nat, b: nat)
    requires
        a <= b,
    ensures
        radix(a) <= radix(b),
    decreases b,
{
    if a < b {
        lemma_radix_grows(a, (b - 1) as nat);
    }
}

/// Appends the eight bytes of `x`.
pub fn write_u64(out: &mut Vec<u8>, x: u64)
    ensures
        final(out)@ == old(out)@ + encode_u64(x),
{
    write_le(out, x, 8);
}

/// Appends the four bytes of `x`.
pub fn write_u32(out: &mut Vec<u8>, x: u32)
    ensures
        final(out)@ == old(out)@ + encode_u32(x),
{
    write_le(out, x as u64, 4);
}

/// Appends the eight bytes of `x`, in two's complement.
pub fn write_i64(out: &mut Vec<u8>, x: i64)
    ensures
        final(out)@ == old(out)@ + encode_i64(x),
{
    let bits: u64 = if x >= 0 {
        x as u64
    } else {
        ((x - i64::MIN) as u64) + 0x8000_0000_0000_0000u64
    };
    write_le(out, bits, 8);
}

/// Appends the four bytes of `x`, in two's complement.
pub fn write_i32(out: &mut Vec<u8>, x: i32)
    ensures
        final(out)@ == old(out)@ + encode_i32(x),
{
    let bits: u64 = if x >= 0 {
        x as u64
    } else {
        ((x - i32::MIN) as u64) + 0x8000_0000u64
    };
    write_le(out, bits, 4);
}

/// Appends the length of `b` and then its bytes.
pub fn write_bytes(out: &mut Vec<u8>, b: &[u8])
    ensures
        final(out)@ == old(out)@ + encode_bytes(b@),
{
    let ghost before = out@;
    write_u64(out, b.len() as u64);
    append_bytes(out, b);
    assert(out@ =~= before + encode_bytes(b@));
}

/// Reads an unsigned 64-bit number from the front of `data`.
pub fn read_u64(data: &[u8]) -> (r: Option<(u64, &[u8])>)
    ensures
        match r {
            Some((x, rest)) => parse_u64(data@) == Some((x, rest@)),
            None => parse_u64(data@) is None,
        },
{
    if data.len() < 8 {
        return None;
    }
    proof {
        lemma_le_value_bound(data@.take(8));
        lemma_radix_table();
    }
    let x = read_le(data, 8);
    let rest = vstd::slice::slice_subrange(data, 8, data.len());
    Some((x, rest))
}

/// Reads an unsigned 32-bit number from the front of `data`.
pub fn read_u32(data: &[u8]) -> (r: Option<(u32, &[u8])>)
    ensures
        match r {
            Some((x, rest)) => parse_u32(data@) == Some((x, rest@)),
            None => parse_u32(data@) is None,
        },
{
    if data.len() < 4 {
        return None;
    }
    proof {
        lemma_le_value_bound(data@.take(4));
        lemma_radix_table();
    }
    let x = read_le(data, 4);
    let rest = vstd::slice::slice_subrange(data, 4, data.len());
    Some((x as u32, rest))
}

/// Reads a signed 64-bit number from the front of `data`.
pub fn read_i64(data: &[u8]) -> (r: Option<(i64, &[u8])>)
    ensures
        match r {
            Some((x, rest)) => parse_i64(data@) == Some((x, rest@)),
            None => parse_i64(data@) is None,
        },
{
    if data.len() < 8 {
        return None;
    }
    proof {
        lemma_le_value_bound(data@.take(8));
        lemma_radix_table();
    }
    let bits = read_le(data, 8);
    let x: i64 = if bits < 0x8000_0000_0000_0000u64 {
        bits as i64
    } else {
        ((bits - 0x8000_0000_0000_0000u64) as i64) + i64::MIN
    };
    let rest = vstd::slice::slice_subrange(data, 8, data.len());
    Some((x, rest))
}

/// Reads a signed 32-bit number from the front of `data`.
pub fn read_i32(data: &[u8]) -> (r: Option<(i32, &[u8])>)
    ensures
        match r {
            Some((x, rest)) => parse_i32(data@) == Some((x, rest@)),
            None => parse_i32(data@) is None,
        },
{
    if data.len() < 4 {
        return None;
    }
    proof {
        lemma_le_value_bound(data@.take(4));
        lemma_radix_table();
    }
    let bits = read_le(data, 4);
    let x: i32 = if bits < 0x8000_0000u64 {
        bits as i32
    } else {
        ((bits - 0x8000_0000u64) as i32) + i32::MIN
    };
    let rest = vstd::slice::slice_subrange(data, 4, data.len());
    Some((x, rest))
}

/// Reads a length and then that many bytes from the front of `data`.
pub fn read_bytes(data: &[u8]) -> (r: Option<(Vec<u8>, &[u8])>)
    ensures
        match r {
            Some((b, rest)) => parse_bytes(data@) == Some((b@, rest@)),
            None => parse_bytes(data@) is None,
        },
{
    match read_u64(data) {
        None => None,
        Some((n, rest)) => {
            if n > rest.len() as u64 {
                return None;
            }
            let len = n as usize;
            let b = copy_bytes(vstd::slice::slice_subrange(rest, 0, len));
            let tail = vstd::slice::slice_subrange(rest, len, rest.len());
            Some((b, tail))
        },
    }
}

} // verus!
