//! Base58 with big-number arithmetic: bytes to digits of the alphabet
//! `123456789ABCDEFGHJKLMNPQRSTUVWXYZabcdefghijkmnopqrstuvwxyz`, and back.
//!
//! The arithmetic on numbers of any size is that of `num_bigint`; the numbers
//! pass through this module as big-endian byte strings.

use crate::proofofwork::big_endian_value;
use num_bigint::{BigInt, Sign};
use num_integer::Integer;
use num_traits::{ToPrimitive, Zero};
use vstd::prelude::*;

verus! {

/// The fifty-eight digits, lowest first.
pub open spec fn alphabet() -> Seq<u8> {
    seq![
        49u8, 50, 51, 52, 53, 54, 55, 56, 57, 65, 66, 67, 68, 69, 70, 71, 72, 74, 75, 76, 77, 78, 80, 81, 82, 83, 84, 85, 86, 87, 88, 89, 90, 97, 98, 99, 100, 101, 102, 103, 104, 105, 106, 107, 109, 110, 111, 112, 113, 114, 115, 116, 117, 118, 119, 120, 121, 122,
    ]
}

/// The digits of a number in base 58, most significant first; no digit for
/// zero.
pub open spec fn digits58(n: nat) -> Seq<u8>
    decreases n,
{
    if n == 0 {
        Seq::empty()
    } else {
        digits58(n / 58).push(alphabet()[(n % 58) as int])
    }
}

/// How many times `byte` stands at the front of `s`.
pub open spec fn leading(s: Seq<u8>, byte: u8) -> nat
    decreases s.len(),
{
    if s.len() == 0 || s[0] != byte {
        0
    } else {
        1 + leading(s.drop_first(), byte)
    }
}

/// `count` copies of `byte`.
pub open spec fn repeated(byte: u8, count: nat) -> Seq<u8> {
    Seq::new(count, |i: int| byte)
}

/// The Base58 text of a byte string: a first digit for each zero byte at the
/// front, then the digits of the number that the bytes stand for.
pub open spec fn encoded(input: Seq<u8>) -> Seq<u8> {
    repeated(alphabet()[0], leading(input, 0)) + digits58(big_endian_value(input))
}

/// The place of a digit in the alphabet.
pub open spec fn digit_value(digit: u8) -> int {
    alphabet().index_of(digit)
}

/// The number that digits stand for in base 58, most significant first.
pub open spec fn value58(digits: Seq<u8>) -> nat
    decreases digits.len(),
{
    if digits.len() == 0 {
        0
    } else {
        (value58(digits.drop_last()) * 58 + digit_value(digits.last())) as nat
    }
}

/// The bytes of a number, most significant first; no byte for zero.
pub open spec fn bytes256(n: nat) -> Seq<u8>
    decreases n,
{
    if n == 0 {
        Seq::empty()
    } else {
        bytes256(n / 256).push((n % 256) as u8)
    }
}

/// The shortest big-endian bytes of a number, with one zero byte for zero.
pub open spec fn shortest_bytes(n: nat) -> Seq<u8> {
    if n == 0 {
        seq![0u8]
    } else {
        bytes256(n)
    }
}

/// The bytes behind a Base58 text: a zero byte for each first digit at the
/// front, then the shortest bytes of the number that the other digits stand
/// for.
pub open spec fn decoded(input: Seq<u8>) -> Seq<u8> {
    let zero_bytes = leading(input, alphabet()[0]);
    repeated(0u8, zero_bytes) + shortest_bytes(value58(input.skip(zero_bytes as int)))
}

/// The bytes that a Base58 text stands for: a zero byte for each first digit
/// at the front, then the bytes of the number that the other digits stand
/// for. This is `decoded` but for a text of first digits alone, where it is
/// one zero byte shorter.
pub open spec fn payload(input: Seq<u8>) -> Seq<u8> {
    let zero_bytes = leading(input, alphabet()[0]);
    repeated(0u8, zero_bytes) + bytes256(value58(input.skip(zero_bytes as int)))
}

/// Whether every byte of a text is a digit of the alphabet.
pub open spec fn well_formed(input: Seq<u8>) -> bool {
    forall|i: int| 0 <= i < input.len() ==> alphabet().contains(#[trigger] input[i])
}

/// The bytes that `leading` counts are at the front, and the byte after them
/// is another.
pub proof fn lemma_leading_run(s: Seq<u8>, byte: u8)
    ensures
        leading(s, byte) <= s.len(),
        forall|i: int| 0 <= i < leading(s, byte) ==> s[i] == byte,
        leading(s, byte) < s.len() ==> s[leading(s, byte) as int] != byte,
    decreases s.len(),
{
    if s.len() > 0 && s[0] == byte {
        let rest = s.drop_first();
        lemma_leading_run(rest, byte);
        assert forall|i: int| 0 <= i < leading(s, byte) implies s[i] == byte by {
            if i > 0 {
                assert(s[i] == rest[i - 1]);
            }
        }
        if leading(s, byte) < s.len() {
            assert(s[leading(s, byte) as int] == rest[leading(rest, byte) as int]);
        }
    }
}

/// In front of a text that does not begin with `byte`, a run of `count`
/// such bytes is counted in full.
proof fn lemma_leading_of_run(count: nat, rest: Seq<u8>, byte: u8)
    requires
        rest.len() == 0 || rest[0] != byte,
    ensures
        leading(repeated(byte, count) + rest, byte) == count,
    decreases count,
{
    let s = repeated(byte, count) + rest;
    if count == 0 {
        assert(s =~= rest);
    } else {
        assert(s[0] == byte);
        assert(s.drop_first() =~= repeated(byte, (count - 1) as nat) + rest);
        lemma_leading_of_run((count - 1) as nat, rest, byte);
    }
}

/// A byte at the end is counted where the text before it was counted in
/// full and the byte is the one that is counted.
proof fn lemma_leading_push(s: Seq<u8>, byte: u8, last: u8)
    ensures
        leading(s.push(last), byte) == if leading(s, byte) == s.len() && last == byte {
            s.len() + 1
        } else {
            leading(s, byte)
        },
    decreases s.len(),
{
    let longer = s.push(last);
    if s.len() == 0 {
        assert(longer[0] == last);
        assert(longer.drop_first() =~= Seq::<u8>::empty());
        assert(leading(longer.drop_first(), byte) == 0);
    } else if s[0] == byte {
        assert(longer[0] == byte);
        assert(longer.drop_first() =~= s.drop_first().push(last));
        lemma_leading_push(s.drop_first(), byte, last);
    } else {
        assert(longer[0] == s[0]);
    }
}

/// Bytes stand for zero exactly where each of them is zero.
proof fn lemma_zero_value(s: Seq<u8>)
    ensures
        big_endian_value(s) == 0 <==> leading(s, 0) == s.len(),
    decreases s.len(),
{
    if s.len() > 0 {
        let front = s.drop_last();
        assert(s =~= front.push(s.last()));
        lemma_leading_push(front, 0, s.last());
        lemma_leading_run(front, 0);
        lemma_zero_value(front);
    }
}

/// The bytes of the number that a byte string stands for are the string
/// without the zero bytes at its front.
proof fn lemma_bytes_of_value(s: Seq<u8>)
    ensures
        bytes256(big_endian_value(s)) == s.skip(leading(s, 0) as int),
    decreases s.len(),
{
    lemma_leading_run(s, 0);
    lemma_zero_value(s);
    let n = big_endian_value(s);
    if n == 0 {
        assert(s.skip(leading(s, 0) as int) =~= Seq::<u8>::empty());
    } else {
        let front = s.drop_last();
        let last = s.last();
        assert(s =~= front.push(last));
        lemma_leading_push(front, 0, last);
        lemma_leading_run(front, 0);
        lemma_zero_value(front);
        lemma_bytes_of_value(front);
        assert(n == 256 * big_endian_value(front) + last);
        assert(n / 256 == big_endian_value(front));
        assert(n % 256 == last);
        assert(bytes256(n) == bytes256(n / 256).push((n % 256) as u8));
        let zero_bytes = leading(s, 0) as int;
        assert(zero_bytes == leading(front, 0));
        assert(s.skip(zero_bytes) =~= front.skip(zero_bytes).push(last));
    }
}

/// The digits of a number are digits of the alphabet, stand for the number,
/// and do not begin with the first digit.
proof fn lemma_value_of_digits(n: nat)
    ensures
        well_formed(digits58(n)),
        value58(digits58(n)) == n,
        n > 0 ==> digits58(n).len() > 0 && digits58(n)[0] != alphabet()[0],
    decreases n,
{
    if n > 0 {
        let front = digits58(n / 58);
        let place = (n % 58) as int;
        let digit = alphabet()[place];
        let digits = front.push(digit);
        lemma_value_of_digits(n / 58);
        lemma_alphabet_distinct();
        assert(digits58(n) == digits);
        assert(alphabet().contains(digit));
        assert(digit_value(digit) == place) by {
            let found = alphabet().index_of(digit);
            assert(alphabet()[found] == digit);
        }
        assert(digits.drop_last() =~= front);
        assert(value58(digits) == value58(front) * 58 + place);
        assert forall|i: int| 0 <= i < digits.len() implies alphabet().contains(
            #[trigger] digits[i],
        ) by {
            if i < front.len() {
                assert(digits[i] == front[i]);
            }
        }
        if n / 58 > 0 {
            assert(digits[0] == front[0]);
        } else {
            assert(front.len() == 0);
            assert(digits[0] == digit);
        }
    }
}

/// Every digit of the alphabet is below 128.
pub proof fn lemma_digits_are_ascii(input: Seq<u8>)
    requires
        well_formed(input),
    ensures
        forall|i: int| 0 <= i < input.len() ==> #[trigger] input[i] < 128,
{
    assert forall|i: int| 0 <= i < input.len() implies #[trigger] input[i] < 128 by {
        assert(alphabet().contains(input[i]));
        let place = alphabet().index_of(input[i]);
        assert(alphabet()[place] == input[i]);
        lemma_alphabet_rank(place);
    }
}

/// The text of a byte string is made of digits of the alphabet, and stands
/// for the byte string.
pub proof fn lemma_payload_of_encoded(data: Seq<u8>)
    ensures
        well_formed(encoded(data)),
        payload(encoded(data)) == data,
{
    let zero_bytes = leading(data, 0);
    let n = big_endian_value(data);
    let digits = digits58(n);
    let first = alphabet()[0];
    let text = repeated(first, zero_bytes) + digits;
    lemma_value_of_digits(n);
    lemma_leading_of_run(zero_bytes, digits, first);
    lemma_bytes_of_value(data);
    lemma_leading_run(data, 0);
    assert(text.skip(zero_bytes as int) =~= digits);
    assert(repeated(0u8, zero_bytes) + data.skip(zero_bytes as int) =~= data);
    assert forall|i: int| 0 <= i < text.len() implies alphabet().contains(#[trigger] text[i]) by {
        if i < zero_bytes {
            assert(text[i] == alphabet()[0]);
        } else {
            assert(text[i] == digits[i - zero_bytes]);
        }
    }
}

/// A text that does not begin with the first digit stands for a number above
/// zero.
proof fn lemma_value_above_zero(digits: Seq<u8>)
    requires
        well_formed(digits),
        digits.len() > 0,
        digits[0] != alphabet()[0],
    ensures
        value58(digits) > 0,
    decreases digits.len(),
{
    let front = digits.drop_last();
    if front.len() > 0 {
        assert(front[0] == digits[0]);
        assert forall|i: int| 0 <= i < front.len() implies alphabet().contains(
            #[trigger] front[i],
        ) by {
            assert(front[i] == digits[i]);
        }
        lemma_value_above_zero(front);
        assert(alphabet().contains(digits.last()));
        let place = alphabet().index_of(digits.last());
        assert(alphabet()[place] == digits.last());
    } else {
        assert(digits.last() == digits[0]);
        assert(alphabet().contains(digits[0]));
        let place = alphabet().index_of(digits[0]);
        assert(alphabet()[place] == digits[0]);
    }
}

/// A text decodes to the bytes that it stands for, unless it is made of first
/// digits alone: then it decodes to one zero byte more.
pub proof fn lemma_decoded_is_payload(input: Seq<u8>)
    requires
        well_formed(input),
    ensures
        decoded(input) == if leading(input, alphabet()[0]) < input.len() {
            payload(input)
        } else {
            payload(input).push(0u8)
        },
{
    let zero_bytes = leading(input, alphabet()[0]);
    let rest = input.skip(zero_bytes as int);
    lemma_leading_run(input, alphabet()[0]);
    if zero_bytes < input.len() {
        assert(rest[0] == input[zero_bytes as int]);
        assert forall|i: int| 0 <= i < rest.len() implies alphabet().contains(
            #[trigger] rest[i],
        ) by {
            assert(rest[i] == input[i + zero_bytes]);
        }
        lemma_value_above_zero(rest);
    } else {
        assert(rest =~= Seq::<u8>::empty());
        assert(payload(input).push(0u8) =~= decoded(input));
    }
}

/// Whether the number in `number`, read big-endian, is above zero.
///
/// Calls `BigInt::from_bytes_be` of `num_bigint` and compares with
/// `num_traits::Zero::zero()`.
#[verifier::external_body]
fn is_positive(number: &[u8]) -> (positive: bool)
    ensures
        positive == (big_endian_value(number@) > 0),
{
    BigInt::from_bytes_be(Sign::Plus, number) > Zero::zero()
}

/// Divides the number in `number` by `divisor`: the quotient as big-endian
/// bytes, and the remainder.
///
/// Calls `num_integer::Integer::div_rem` on `BigInt`s, which panics on a zero
/// divisor, and `num_traits::ToPrimitive::to_u32` on the remainder, which is
/// below the divisor and so fits.
#[verifier::external_body]
fn div_rem_small(number: &[u8], divisor: u32) -> (r: (Vec<u8>, u32))
    requires
        divisor > 0,
    ensures
        big_endian_value(r.0@) == big_endian_value(number@) / (divisor as nat),
        r.1 == big_endian_value(number@) % (divisor as nat),
{
    let x = BigInt::from_bytes_be(Sign::Plus, number);
    let (div, modu) = x.div_rem(&BigInt::from(divisor));
    (div.to_bytes_be().1, modu.to_u32().unwrap_or_default())
}

/// The number in `number` times `factor`, as big-endian bytes.
///
/// Calls `*` on `BigInt`s of `num_bigint`.
#[verifier::external_body]
fn mul_small(number: &[u8], factor: u32) -> (product: Vec<u8>)
    ensures
        big_endian_value(product@) == big_endian_value(number@) * factor,
{
    (BigInt::from_bytes_be(Sign::Plus, number) * BigInt::from(factor)).to_bytes_be().1
}

/// The number in `number` plus `addend`, as big-endian bytes.
///
/// Calls `+` on `BigInt`s of `num_bigint`.
#[verifier::external_body]
fn add_small(number: &[u8], addend: u32) -> (sum: Vec<u8>)
    ensures
        big_endian_value(sum@) == big_endian_value(number@) + addend,
{
    (BigInt::from_bytes_be(Sign::Plus, number) + BigInt::from(addend)).to_bytes_be().1
}

/// The shortest big-endian bytes of the number in `number`.
///
/// Calls `BigInt::to_bytes_be` of `num_bigint`, which gives no leading zero
/// byte, and a single zero byte for zero.
#[verifier::external_body]
fn to_shortest_bytes(number: &[u8]) -> (bytes: Vec<u8>)
    ensures
        bytes@ == shortest_bytes(big_endian_value(number@)),
{
    BigInt::from_bytes_be(Sign::Plus, number).to_bytes_be().1
}

/// The alphabet as an array.
pub fn alphabet_table() -> (table: [u8; 58])
    ensures
        table@ == alphabet(),
{
    let table: [u8; 58] = [
        49, 50, 51, 52, 53, 54, 55, 56, 57, 65, 66, 67, 68, 69, 70, 71, 72, 74, 75, 76, 77, 78, 80, 81, 82, 83, 84, 85, 86, 87, 88, 89, 90, 97, 98, 99, 100, 101, 102, 103, 104, 105, 106, 107, 109, 110, 111, 112, 113, 114, 115, 116, 117, 118, 119, 120, 121, 122,
    ];
    assert(table@ =~= alphabet());
    table
}

/// Counts how many times `byte` stands at the front of `input`.
pub fn count_leading(input: &[u8], byte: u8) -> (count: usize)
    ensures
        count == leading(input@, byte),
        count <= input@.len(),
{
    let mut count: usize = 0;
    assert(input@.skip(0) =~= input@);
    while count < input.len() && input[count] == byte
        invariant
            count <= input@.len(),
            leading(input@, byte) == count + leading(input@.skip(count as int), byte),
        decreases input@.len() - count,
    {
        proof {
            let rest = input@.skip(count as int);
            assert(rest[0] == input@[count as int]);
            assert(rest.drop_first() =~= input@.skip(count + 1));
        }
        count += 1;
    }
    proof {
        let rest = input@.skip(count as int);
        if count < input@.len() {
            assert(rest[0] == input@[count as int]);
        }
    }
    count
}

/// Encodes bytes as Base58 text.
pub fn encode(input: &[u8]) -> (text: Vec<u8>)
    ensures
        text@ == encoded(input@),
{
    let table = alphabet_table();
    let mut result: Vec<u8> = Vec::new();
    let mut x: Vec<u8> = Vec::new();
    let mut k: usize = 0;
    while k < input.len()
        invariant
            k <= input@.len(),
            x@ == input@.take(k as int),
        decreases input@.len() - k,
    {
        x.push(input[k]);
        k += 1;
        assert(x@ =~= input@.take(k as int));
    }
    assert(x@ =~= input@);
    let ghost whole = big_endian_value(input@);
    assert(digits58(whole) =~= digits58(big_endian_value(x@)) + result@);
    while is_positive(x.as_slice())
        invariant
            table@ == alphabet(),
            digits58(whole) == digits58(big_endian_value(x@)) + result@,
        decreases big_endian_value(x@),
    {
        let ghost value = big_endian_value(x@);
        let (div, modu) = div_rem_small(x.as_slice(), 58);
        let digit = table[modu as usize];
        proof {
            assert(digits58(value) == digits58(value / 58).push(alphabet()[(value % 58) as int]));
            assert(digits58(value / 58).push(digit) + result@ =~= digits58(value / 58) + (seq![
                digit,
            ] + result@));
        }
        let ghost before = result@;
        x = div;
        result.insert(0, digit);
        assert(result@ =~= seq![digit] + before);
    }
    assert(digits58(whole) =~= result@);
    let zero_bytes = count_leading(input, 0);
    let mut j: usize = 0;
    assert(repeated(table@[0], 0) + digits58(whole) =~= digits58(whole));
    while j < zero_bytes
        invariant
            j <= zero_bytes,
            table@ == alphabet(),
            result@ == repeated(alphabet()[0], j as nat) + digits58(whole),
        decreases zero_bytes - j,
    {
        let ghost before = result@;
        result.insert(0, table[0]);
        j += 1;
        assert(result@ =~= repeated(alphabet()[0], j as nat) + digits58(whole)) by {
            assert(result@ =~= seq![alphabet()[0]] + before);
        }
    }
    result
}

/// The place of `digit` in the alphabet, where it is one of its digits.
pub fn position(table: &[u8; 58], digit: u8) -> (place: Option<u32>)
    requires
        table@ == alphabet(),
    ensures
        match place {
            Some(p) => alphabet().contains(digit) && p == digit_value(digit) && p < 58,
            None => !alphabet().contains(digit),
        },
{
    let mut i: usize = 0;
    while i < 58
        invariant
            i <= 58,
            table@ == alphabet(),
            forall|j: int| 0 <= j < i ==> alphabet()[j] != digit,
        decreases 58 - i,
    {
        if table[i] == digit {
            proof {
                assert(alphabet()[i as int] == digit);
                assert(alphabet().contains(digit));
                let place = alphabet().index_of(digit);
                assert(alphabet()[place] == digit);
                lemma_alphabet_distinct();
            }
            return Some(i as u32);
        }
        i += 1;
    }
    assert(!alphabet().contains(digit)) by {
        if alphabet().contains(digit) {
            let j = choose|j: int| 0 <= j < alphabet().len() && alphabet()[j] == digit;
            assert(alphabet()[j] != digit);
        }
    }
    None
}

/// No digit stands twice in the alphabet.
proof fn lemma_alphabet_distinct()
    ensures
        forall|i: int, j: int|
            0 <= i < 58 && 0 <= j < 58 && alphabet()[i] == alphabet()[j] ==> i == j,
{
    assert forall|i: int, j: int|
        0 <= i < 58 && 0 <= j < 58 && alphabet()[i] == alphabet()[j] implies i == j by {
        lemma_alphabet_rank(i);
        lemma_alphabet_rank(j);
    }
}

/// The digits rise through the alphabet, with a gap at each letter that it
/// leaves out.
proof fn lemma_alphabet_rank(i: int)
    requires
        0 <= i < 58,
    ensures
        i < 9 ==> alphabet()[i] == 49 + i,
        9 <= i < 17 ==> alphabet()[i] == 56 + i,
        17 <= i < 22 ==> alphabet()[i] == 57 + i,
        22 <= i < 33 ==> alphabet()[i] == 58 + i,
        33 <= i < 44 ==> alphabet()[i] == 64 + i,
        44 <= i ==> alphabet()[i] == 65 + i,
{
}

/// Decodes Base58 text whose every byte is a digit of the alphabet.
pub fn decode(input: &[u8]) -> (bytes: Vec<u8>)
    requires
        well_formed(input@),
    ensures
        bytes@ == decoded(input@),
{
    let table = alphabet_table();
    let zero_bytes = count_leading(input, table[0]);
    let ghost payload = input@.skip(zero_bytes as int);
    let mut result: Vec<u8> = Vec::new();
    let mut k: usize = zero_bytes;
    assert(big_endian_value(result@) == value58(payload.take(0)));
    while k < input.len()
        invariant
            zero_bytes <= k <= input@.len(),
            table@ == alphabet(),
            well_formed(input@),
            payload == input@.skip(zero_bytes as int),
            big_endian_value(result@) == value58(payload.take(k - zero_bytes)),
        decreases input@.len() - k,
    {
        assert(alphabet().contains(input@[k as int]));
        let char_index = match position(&table, input[k]) {
            Some(p) => p,
            None => 0,
        };
        proof {
            let taken = payload.take(k - zero_bytes + 1);
            assert(taken.drop_last() =~= payload.take(k - zero_bytes));
            assert(taken.last() == input@[k as int]);
        }
        let scaled = mul_small(result.as_slice(), 58);
        result = add_small(scaled.as_slice(), char_index);
        k += 1;
    }
    assert(payload.take(k - zero_bytes) =~= payload);
    let decoded = to_shortest_bytes(result.as_slice());
    let mut bytes: Vec<u8> = Vec::new();
    let mut j: usize = 0;
    while j < zero_bytes
        invariant
            j <= zero_bytes,
            bytes@ == repeated(0u8, j as nat),
        decreases zero_bytes - j,
    {
        bytes.push(0u8);
        j += 1;
        assert(bytes@ =~= repeated(0u8, j as nat));
    }
    let mut m: usize = 0;
    while m < decoded.len()
        invariant
            m <= decoded@.len(),
            bytes@ == repeated(0u8, zero_bytes as nat) + decoded@.take(m as int),
        decreases decoded@.len() - m,
    {
        bytes.push(decoded[m]);
        m += 1;
        assert(bytes@ =~= repeated(0u8, zero_bytes as nat) + decoded@.take(m as int));
    }
    assert(decoded@.take(m as int) =~= decoded@);
    bytes
}

} // verus!
