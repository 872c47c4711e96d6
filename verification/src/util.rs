//! Big-endian numbers, NUL-terminated strings and variable-length integers, as index extensions use them.

use vstd::prelude::*;

verus! {

/// The four bytes of `value`, most significant first.
pub open spec fn u32_be_bytes(value: u32) -> Seq<u8> {
    seq![
        (value / 0x100_0000) as u8,
        (value / 0x1_0000 % 0x100) as u8,
        (value / 0x100 % 0x100) as u8,
        (value % 0x100) as u8,
    ]
}

/// The number whose big-endian representation is `bytes`, which holds four of them.
pub open spec fn u32_be_value(bytes: Seq<u8>) -> u32 {
    (bytes[0] * 0x100_0000 + bytes[1] * 0x1_0000 + bytes[2] * 0x100 + bytes[3]) as u32
}

/// The eight bytes of `value`, most significant first.
pub open spec fn u64_be_bytes(value: u64) -> Seq<u8> {
    u32_be_bytes((value / 0x1_0000_0000) as u32) + u32_be_bytes((value % 0x1_0000_0000) as u32)
}

/// The number whose big-endian representation is `bytes`, which holds eight of them.
pub open spec fn u64_be_value(bytes: Seq<u8>) -> u64 {
    (u32_be_value(bytes.subrange(0, 4)) * 0x1_0000_0000 + u32_be_value(bytes.subrange(4, 8))) as u64
}

/// The first `len` bytes of `data` and what follows them, if there are that many.
pub open spec fn split_bytes(data: Seq<u8>, len: int) -> Option<(Seq<u8>, Seq<u8>)> {
    if 0 <= len <= data.len() {
        Some((data.subrange(0, len), data.subrange(len, data.len() as int)))
    } else {
        None
    }
}

/// The big-endian `u32` that `data` starts with and what follows it.
pub open spec fn u32_parsed(data: Seq<u8>) -> Option<(u32, Seq<u8>)> {
    match split_bytes(data, 4) {
        Some((bytes, rest)) => Some((u32_be_value(bytes), rest)),
        None => None,
    }
}

/// The big-endian `u64` that `data` starts with and what follows it.
pub open spec fn u64_parsed(data: Seq<u8>) -> Option<(u64, Seq<u8>)> {
    match split_bytes(data, 8) {
        Some((bytes, rest)) => Some((u64_be_value(bytes), rest)),
        None => None,
    }
}

/// The position of the first `byte` in `data`, or the length of `data` if there is none.
pub open spec fn first_index(data: Seq<u8>, byte: u8) -> int
    decreases data.len(),
{
    if data.len() == 0 || data[0] == byte {
        0
    } else {
        1 + first_index(data.drop_first(), byte)
    }
}

/// What stands before and after the first `byte` in `data`, if there is one.
pub open spec fn split_at_byte(data: Seq<u8>, byte: u8) -> Option<(Seq<u8>, Seq<u8>)> {
    let index = first_index(data, byte);
    if index < data.len() {
        Some((data.subrange(0, index), data.subrange(index + 1, data.len() as int)))
    } else {
        None
    }
}

/// The bytes of a variable-length integer in front of the last one, where `quotient` is what the last byte leaves
/// of the number.
///
/// Each byte holds seven bits, most significant first, and a flag that another byte follows. One is subtracted with
/// each step so that no number has two representations.
pub open spec fn var_int_prefix(quotient: nat) -> Seq<u8>
    decreases quotient,
{
    if quotient == 0 {
        Seq::empty()
    } else {
        var_int_prefix(((quotient - 1) / 128) as nat).push((128 + (quotient - 1) % 128) as u8)
    }
}

/// The representation of `value` as variable-length integer.
pub open spec fn var_int_bytes(value: nat) -> Seq<u8> {
    var_int_prefix(value / 128).push((value % 128) as u8)
}

/// The variable-length integer that `data` starts with, without regard to its size, and what follows it.
///
/// `quotient` is what the bytes in front of `data` contribute.
pub open spec fn var_int_value(data: Seq<u8>, quotient: nat) -> Option<(nat, Seq<u8>)>
    decreases data.len(),
{
    if data.len() == 0 {
        None
    } else {
        let value = quotient * 128 + (data[0] % 128) as nat;
        if data[0] < 128 {
            Some((value, data.drop_first()))
        } else {
            var_int_value(data.drop_first(), value + 1)
        }
    }
}

/// The variable-length integer of at most 64 bits that `data` starts with and what follows it.
pub open spec fn var_int_parsed(data: Seq<u8>) -> Option<(u64, Seq<u8>)> {
    match var_int_value(data, 0) {
        Some((value, rest)) => if value <= u64::MAX {
            Some((value as u64, rest))
        } else {
            None
        },
        None => None,
    }
}

/// Whether `a` comes before `b` if bytes are compared one by one, and a string comes after all that it starts with.
pub open spec fn precedes(a: Seq<u8>, b: Seq<u8>) -> bool
    decreases a.len(),
{
    if b.len() == 0 {
        false
    } else if a.len() == 0 {
        true
    } else {
        a[0] < b[0] || a[0] == b[0] && precedes(a.drop_first(), b.drop_first())
    }
}

/// Decoding the four bytes of a number gives the number back.
pub proof fn lemma_u32_round_trip(value: u32)
    ensures
        u32_be_bytes(value).len() == 4,
        u32_be_value(u32_be_bytes(value)) == value,
{
    let first = value / 0x100_0000;
    let second = value / 0x1_0000;
    let third = value / 0x100;
    assert(second / 0x100 == first) by (nonlinear_arith)
        requires
            second == value / 0x1_0000,
            first == value / 0x100_0000,
    ;
    assert(third / 0x100 == second) by (nonlinear_arith)
        requires
            third == value / 0x100,
            second == value / 0x1_0000,
    ;
    assert(second == first * 0x100 + second % 0x100);
    assert(third == second * 0x100 + third % 0x100);
    assert(value == third * 0x100 + value % 0x100);
    assert(first < 0x100);
}

/// Encoding the number that four bytes stand for gives the bytes back.
pub proof fn lemma_u32_bytes_round_trip(bytes: Seq<u8>)
    requires
        bytes.len() == 4,
    ensures
        u32_be_bytes(u32_be_value(bytes)) == bytes,
{
    let value = bytes[0] * 0x100_0000 + bytes[1] * 0x1_0000 + bytes[2] * 0x100 + bytes[3];
    assert(value / 0x100_0000 == bytes[0]);
    assert(value / 0x1_0000 == bytes[0] * 0x100 + bytes[1]);
    assert(value / 0x100 == bytes[0] * 0x1_0000 + bytes[1] * 0x100 + bytes[2]);
    assert(u32_be_bytes(u32_be_value(bytes)) =~= bytes);
}

/// Decoding the eight bytes of a number gives the number back.
pub proof fn lemma_u64_round_trip(value: u64)
    ensures
        u64_be_bytes(value).len() == 8,
        u64_be_value(u64_be_bytes(value)) == value,
{
    let high = (value / 0x1_0000_0000) as u32;
    let low = (value % 0x1_0000_0000) as u32;
    lemma_u32_round_trip(high);
    lemma_u32_round_trip(low);
    assert(u64_be_bytes(value).subrange(0, 4) =~= u32_be_bytes(high));
    assert(u64_be_bytes(value).subrange(4, 8) =~= u32_be_bytes(low));
}

/// Encoding the number that eight bytes stand for gives the bytes back.
pub proof fn lemma_u64_bytes_round_trip(bytes: Seq<u8>)
    requires
        bytes.len() == 8,
    ensures
        u64_be_bytes(u64_be_value(bytes)) == bytes,
{
    lemma_u32_bytes_round_trip(bytes.subrange(0, 4));
    lemma_u32_bytes_round_trip(bytes.subrange(4, 8));
    let high = u32_be_value(bytes.subrange(0, 4));
    let low = u32_be_value(bytes.subrange(4, 8));
    assert(u64_be_value(bytes) / 0x1_0000_0000 == high);
    assert(u64_be_value(bytes) % 0x1_0000_0000 == low);
    assert(u64_be_bytes(u64_be_value(bytes)) =~= bytes);
}

/// A prefix of known length can be split off again.
pub proof fn lemma_split_bytes_append(bytes: Seq<u8>, rest: Seq<u8>)
    ensures
        split_bytes(bytes + rest, bytes.len() as int) == Some((bytes, rest)),
{
    assert((bytes + rest).subrange(0, bytes.len() as int) =~= bytes);
    assert((bytes + rest).subrange(bytes.len() as int, (bytes + rest).len() as int) =~= rest);
}

/// Reading a `u32` gives back what was written, and leaves what follows it.
pub proof fn law_u32_read_gives_back_written(value: u32, rest: Seq<u8>)
    ensures
        u32_parsed(u32_be_bytes(value) + rest) == Some((value, rest)),
{
    lemma_u32_round_trip(value);
    lemma_split_bytes_append(u32_be_bytes(value), rest);
}

/// Reading a `u64` gives back what was written, and leaves what follows it.
pub proof fn law_u64_read_gives_back_written(value: u64, rest: Seq<u8>)
    ensures
        u64_parsed(u64_be_bytes(value) + rest) == Some((value, rest)),
{
    lemma_u64_round_trip(value);
    lemma_split_bytes_append(u64_be_bytes(value), rest);
}

/// The first position of `byte` is the one at which it stands and before which it does not.
pub proof fn lemma_first_index_at(data: Seq<u8>, byte: u8, index: int)
    requires
        0 <= index <= data.len(),
        index < data.len() ==> data[index] == byte,
        forall|i: int| 0 <= i < index ==> data[i] != byte,
    ensures
        first_index(data, byte) == index,
    decreases data.len(),
{
    if index > 0 {
        assert forall|i: int| 0 <= i < index - 1 implies data.drop_first()[i] != byte by {
            assert(data.drop_first()[i] == data[i + 1]);
        }
        lemma_first_index_at(data.drop_first(), byte, index - 1);
    }
}

/// What the first position of `byte` tells of `data`.
pub proof fn lemma_first_index(data: Seq<u8>, byte: u8)
    ensures
        0 <= first_index(data, byte) <= data.len(),
        first_index(data, byte) < data.len() ==> data[first_index(data, byte)] == byte,
        forall|i: int| 0 <= i < first_index(data, byte) ==> data[i] != byte,
        first_index(data, byte) < data.len() <==> data.contains(byte),
    decreases data.len(),
{
    if data.len() > 0 && data[0] != byte {
        lemma_first_index(data.drop_first(), byte);
        let index = first_index(data, byte);
        assert forall|i: int| 0 <= i < index implies data[i] != byte by {
            if i > 0 {
                assert(data[i] == data.drop_first()[i - 1]);
            }
        }
        if data.contains(byte) {
            let i = choose|i: int| 0 <= i < data.len() && data[i] == byte;
            assert(data.drop_first()[i - 1] == byte);
        }
        if data.drop_first().contains(byte) {
            let i = choose|i: int| 0 <= i < data.len() - 1 && data.drop_first()[i] == byte;
            assert(data[i + 1] == byte);
        }
    }
}

/// A string without `byte` that is terminated by it is found again.
pub proof fn law_terminated_string_is_found(text: Seq<u8>, byte: u8, rest: Seq<u8>)
    requires
        !text.contains(byte),
    ensures
        split_at_byte(text.push(byte) + rest, byte) == Some((text, rest)),
{
    let data = text.push(byte) + rest;
    assert forall|i: int| 0 <= i < text.len() implies data[i] != byte by {
        assert(text.contains(text[i]));
    }
    lemma_first_index_at(data, byte, text.len() as int);
    assert(data.subrange(0, text.len() as int) =~= text);
    assert(data.subrange(text.len() as int + 1, data.len() as int) =~= rest);
}

/// The parts around the first `byte` make up the whole, and the part before it is free of `byte`.
pub proof fn lemma_split_at_byte_parts(data: Seq<u8>, byte: u8)
    ensures
        split_at_byte(data, byte) matches Some((text, rest)) ==> {
            &&& !text.contains(byte)
            &&& data == text.push(byte) + rest
        },
        split_at_byte(data, byte) is None <==> !data.contains(byte),
{
    lemma_first_index(data, byte);
    if let Some((text, rest)) = split_at_byte(data, byte) {
        assert(data =~= text.push(byte) + rest);
    }
}

/// The continuation bytes of a number are read as the quotient that they stand for.
proof fn lemma_var_int_prefix_value(quotient: nat, tail: Seq<u8>)
    ensures
        var_int_value(var_int_prefix(quotient) + tail, 0) == var_int_value(tail, quotient),
    decreases quotient,
{
    if quotient == 0 {
        assert(var_int_prefix(quotient) + tail =~= tail);
    } else {
        let before = ((quotient - 1) / 128) as nat;
        let byte = (128 + (quotient - 1) % 128) as u8;
        let with_byte = seq![byte] + tail;
        assert(var_int_prefix(quotient) + tail =~= var_int_prefix(before) + with_byte);
        lemma_var_int_prefix_value(before, with_byte);
        assert(with_byte.drop_first() =~= tail);
        assert(before * 128 + (byte % 128) as nat + 1 == quotient);
    }
}

/// Reading a variable-length integer gives back what was written, and leaves what follows it.
pub proof fn law_var_int_read_gives_back_written(value: u64, rest: Seq<u8>)
    ensures
        var_int_parsed(var_int_bytes(value as nat) + rest) == Some((value, rest)),
{
    let last = (value % 128) as u8;
    let with_last = seq![last] + rest;
    assert(var_int_bytes(value as nat) + rest =~= var_int_prefix(value as nat / 128) + with_last);
    lemma_var_int_prefix_value(value as nat / 128, with_last);
    assert(with_last.drop_first() =~= rest);
}

/// A number that was read has the bytes that it was read from, given those that stand for `quotient`.
proof fn lemma_var_int_value_bytes(data: Seq<u8>, quotient: nat)
    ensures
        var_int_value(data, quotient) matches Some((value, rest)) ==> var_int_prefix(quotient) + data == var_int_bytes(
            value,
        ) + rest,
    decreases data.len(),
{
    if data.len() > 0 {
        let value = quotient * 128 + (data[0] % 128) as nat;
        assert(value / 128 == quotient && value % 128 == data[0] % 128);
        if data[0] < 128 {
            assert(var_int_prefix(quotient) + data =~= var_int_bytes(value) + data.drop_first());
        } else {
            lemma_var_int_value_bytes(data.drop_first(), value + 1);
            assert(var_int_prefix(value + 1) =~= var_int_prefix(quotient).push(data[0]));
            assert(var_int_prefix(quotient) + data =~= var_int_prefix(value + 1) + data.drop_first());
        }
    }
}

/// Each number has one representation as variable-length integer: what was read would be written the same way.
pub proof fn law_var_int_representation_is_unique(data: Seq<u8>)
    ensures
        var_int_parsed(data) matches Some((value, rest)) ==> data == var_int_bytes(value as nat) + rest,
{
    lemma_var_int_value_bytes(data, 0);
    assert(var_int_prefix(0) + data =~= data);
}

/// Reading does not make a number smaller than what was read of it so far.
proof fn lemma_var_int_value_grows(data: Seq<u8>, quotient: nat)
    ensures
        var_int_value(data, quotient) matches Some((value, rest)) ==> {
            &&& value >= quotient * 128
            &&& rest.len() < data.len()
        },
    decreases data.len(),
{
    if data.len() > 0 {
        let value = quotient * 128 + (data[0] % 128) as nat;
        lemma_var_int_value_grows(data.drop_first(), value + 1);
    }
}

/// Reading a variable-length integer consumes at least one byte.
pub proof fn lemma_var_int_parsed_shrinks(data: Seq<u8>)
    ensures
        var_int_parsed(data) matches Some((_, rest)) ==> rest.len() < data.len(),
{
    lemma_var_int_value_grows(data, 0);
}

/// Of two strings of the same length, the one that comes first still does if a byte is added to each.
proof fn lemma_precedes_with_more(a: Seq<u8>, b: Seq<u8>, a_byte: u8, b_byte: u8)
    requires
        a.len() == b.len(),
        precedes(a, b) || a == b && a_byte < b_byte,
    ensures
        precedes(a.push(a_byte), b.push(b_byte)),
    decreases a.len(),
{
    if a.len() > 0 && a[0] == b[0] {
        lemma_precedes_with_more(a.drop_first(), b.drop_first(), a_byte, b_byte);
    }
    if a.len() > 0 {
        assert(a.push(a_byte).drop_first() =~= a.drop_first().push(a_byte));
        assert(b.push(b_byte).drop_first() =~= b.drop_first().push(b_byte));
    }
}

/// The bytes in front of the last one are ordered as the quotients that they stand for, and say that a byte follows.
proof fn lemma_var_int_prefix_order(quotient: nat, larger: nat)
    requires
        quotient <= larger,
    ensures
        var_int_prefix(quotient).len() <= var_int_prefix(larger).len(),
        quotient < larger && var_int_prefix(quotient).len() == var_int_prefix(larger).len() ==> precedes(
            var_int_prefix(quotient),
            var_int_prefix(larger),
        ),
        forall|i: int| 0 <= i < var_int_prefix(larger).len() ==> #[trigger] var_int_prefix(larger)[i] >= 128,
    decreases larger,
{
    if larger > 0 {
        let before_larger = ((larger - 1) / 128) as nat;
        if quotient > 0 {
            let before = ((quotient - 1) / 128) as nat;
            lemma_var_int_prefix_order(before, before_larger);
            if quotient < larger && var_int_prefix(quotient).len() == var_int_prefix(larger).len() {
                lemma_precedes_with_more(
                    var_int_prefix(before),
                    var_int_prefix(before_larger),
                    (128 + (quotient - 1) % 128) as u8,
                    (128 + (larger - 1) % 128) as u8,
                );
            }
        } else {
            lemma_var_int_prefix_order(0, before_larger);
        }
    }
}

/// Representations as variable-length integer are ordered as the numbers are: that of a larger number is no shorter,
/// and comes later if it is as long. Neither of two is what the other starts with.
pub proof fn law_var_int_order(value: nat, larger: nat)
    requires
        value < larger,
    ensures
        var_int_bytes(value).len() <= var_int_bytes(larger).len(),
        var_int_bytes(value).len() == var_int_bytes(larger).len() ==> precedes(
            var_int_bytes(value),
            var_int_bytes(larger),
        ),
        !var_int_bytes(value).is_prefix_of(var_int_bytes(larger)),
        !var_int_bytes(larger).is_prefix_of(var_int_bytes(value)),
{
    let bytes = var_int_bytes(value);
    let larger_bytes = var_int_bytes(larger);
    lemma_var_int_prefix_order(value / 128, larger / 128);
    if bytes.len() == larger_bytes.len() {
        lemma_precedes_with_more(
            var_int_prefix(value / 128),
            var_int_prefix(larger / 128),
            (value % 128) as u8,
            (larger % 128) as u8,
        );
        lemma_precedes_is_irreflexive(bytes);
        if bytes.is_prefix_of(larger_bytes) || larger_bytes.is_prefix_of(bytes) {
            assert(bytes =~= larger_bytes);
        }
    } else {
        let last = bytes.len() - 1;
        assert(bytes[last] < 128);
        assert(larger_bytes[last] == var_int_prefix(larger / 128)[last]);
    }
}

/// No string comes before itself.
proof fn lemma_precedes_is_irreflexive(text: Seq<u8>)
    ensures
        !precedes(text, text),
    decreases text.len(),
{
    if text.len() > 0 {
        lemma_precedes_is_irreflexive(text.drop_first());
    }
}

/// What can be split off is split off the same way if more bytes follow.
pub proof fn lemma_split_bytes_extended(data: Seq<u8>, len: int, more: Seq<u8>)
    ensures
        split_bytes(data, len) matches Some((bytes, rest)) ==> split_bytes(data + more, len) == Some(
            (bytes, rest + more),
        ),
{
    if let Some((bytes, rest)) = split_bytes(data, len) {
        assert((data + more).subrange(0, len) =~= bytes);
        assert((data + more).subrange(len, (data + more).len() as int) =~= rest + more);
    }
}

/// A terminated string is found the same way if more bytes follow.
pub proof fn lemma_split_at_byte_extended(data: Seq<u8>, byte: u8, more: Seq<u8>)
    ensures
        split_at_byte(data, byte) matches Some((text, rest)) ==> split_at_byte(data + more, byte) == Some(
            (text, rest + more),
        ),
{
    lemma_split_at_byte_parts(data, byte);
    if let Some((text, rest)) = split_at_byte(data, byte) {
        assert(data + more =~= text.push(byte) + (rest + more));
        law_terminated_string_is_found(text, byte, rest + more);
    }
}

/// A variable-length integer is read the same way if more bytes follow, whatever its size.
proof fn lemma_var_int_value_extended(data: Seq<u8>, quotient: nat, more: Seq<u8>)
    ensures
        var_int_value(data, quotient) matches Some((value, rest)) ==> var_int_value(data + more, quotient) == Some(
            (value, rest + more),
        ),
    decreases data.len(),
{
    if data.len() > 0 {
        let value = quotient * 128 + (data[0] % 128) as nat;
        lemma_var_int_value_extended(data.drop_first(), value + 1, more);
        assert((data + more).drop_first() =~= data.drop_first() + more);
    }
}

/// A variable-length integer is read the same way if more bytes follow.
pub proof fn lemma_var_int_extended(data: Seq<u8>, more: Seq<u8>)
    ensures
        var_int_parsed(data) matches Some((value, rest)) ==> var_int_parsed(data + more) == Some((value, rest + more)),
{
    lemma_var_int_value_extended(data, 0, more);
}

/// Split `data` after `len` bytes, or return `None` if there are fewer.
pub fn split_at_checked(data: &[u8], len: usize) -> (res: Option<(&[u8], &[u8])>)
    ensures
        match res {
            Some((bytes, rest)) => split_bytes(data@, len as int) == Some((bytes@, rest@)),
            None => split_bytes(data@, len as int) is None,
        },
{
    if len <= data.len() {
        Some(data.split_at(len))
    } else {
        None
    }
}

/// Read a big-endian `u32` off the front of `data`, or return `None` if there are not enough bytes.
pub fn read_u32(data: &[u8]) -> (res: Option<(u32, &[u8])>)
    ensures
        match res {
            Some((value, rest)) => u32_parsed(data@) == Some((value, rest@)),
            None => u32_parsed(data@) is None,
        },
{
    match split_at_checked(data, 4) {
        Some((bytes, rest)) => {
            let value: u32 = bytes[0] as u32 * 0x100_0000 + bytes[1] as u32 * 0x1_0000 + bytes[2] as u32 * 0x100
                + bytes[3] as u32;
            Some((value, rest))
        },
        None => None,
    }
}

/// Read a big-endian `u64` off the front of `data`, or return `None` if there are not enough bytes.
pub fn read_u64(data: &[u8]) -> (res: Option<(u64, &[u8])>)
    ensures
        match res {
            Some((value, rest)) => u64_parsed(data@) == Some((value, rest@)),
            None => u64_parsed(data@) is None,
        },
{
    match read_u32(data) {
        Some((high, tail)) => match read_u32(tail) {
            Some((low, rest)) => {
                assert(data@.subrange(0, 8).subrange(0, 4) =~= data@.subrange(0, 4));
                assert(data@.subrange(0, 8).subrange(4, 8) =~= tail@.subrange(0, 4));
                assert(rest@ =~= data@.subrange(8, data@.len() as int));
                Some((high as u64 * 0x1_0000_0000 + low as u64, rest))
            },
            None => None,
        },
        None => None,
    }
}

/// Return what stands before and after the first `byte` in `data`, or `None` if it isn't contained.
pub fn split_at_byte_exclusive(data: &[u8], byte: u8) -> (res: Option<(&[u8], &[u8])>)
    ensures
        match res {
            Some((text, rest)) => split_at_byte(data@, byte) == Some((text@, rest@)),
            None => split_at_byte(data@, byte) is None,
        },
{
    let mut index: usize = 0;
    while index < data.len()
        invariant
            index <= data.len(),
            forall|i: int| 0 <= i < index ==> data@[i] != byte,
        decreases data.len() - index,
    {
        if data[index] == byte {
            proof {
                lemma_first_index_at(data@, byte, index as int);
            }
            let (text, with_byte) = data.split_at(index);
            let (_, rest) = with_byte.split_at(1);
            assert(rest@ =~= data@.subrange(index + 1, data@.len() as int));
            return Some((text, rest));
        }
        index = index + 1;
    }
    proof {
        lemma_first_index_at(data@, byte, index as int);
    }
    None
}

/// Read a variable-length integer off the front of `data`, or return `None` if it is cut short or exceeds 64 bits.
pub fn var_int(data: &[u8]) -> (res: Option<(u64, &[u8])>)
    ensures
        match res {
            Some((value, rest)) => var_int_parsed(data@) == Some((value, rest@)),
            None => var_int_parsed(data@) is None,
        },
{
    let mut quotient: u64 = 0;
    let mut index: usize = 0;
    assert(data@.subrange(0, data@.len() as int) =~= data@);
    while index < data.len()
        invariant
            index <= data.len(),
            var_int_value(data@, 0) == var_int_value(data@.subrange(index as int, data@.len() as int), quotient as nat),
        decreases data.len() - index,
    {
        let ghost tail = data@.subrange(index as int, data@.len() as int);
        proof {
            lemma_var_int_value_grows(tail, quotient as nat);
            assert(tail.drop_first() =~= data@.subrange(index + 1, data@.len() as int));
        }
        if quotient > u64::MAX / 128 {
            return None;
        }
        let byte: u8 = data[index];
        let value: u64 = quotient * 128 + (byte % 128) as u64;
        if byte < 128 {
            let (_, rest) = data.split_at(index + 1);
            return Some((value, rest));
        }
        if value == u64::MAX {
            proof {
                lemma_var_int_value_grows(tail.drop_first(), value as nat + 1);
            }
            return None;
        }
        quotient = value + 1;
        index = index + 1;
    }
    None
}

/// Append the big-endian bytes of `value` to `out`.
pub fn write_u32(out: &mut Vec<u8>, value: u32)
    ensures
        final(out)@ == old(out)@ + u32_be_bytes(value),
{
    out.push((value / 0x100_0000) as u8);
    out.push((value / 0x1_0000 % 0x100) as u8);
    out.push((value / 0x100 % 0x100) as u8);
    out.push((value % 0x100) as u8);
    assert(out@ =~= old(out)@ + u32_be_bytes(value));
}

/// Append the big-endian bytes of `value` to `out`.
pub fn write_u64(out: &mut Vec<u8>, value: u64)
    ensures
        final(out)@ == old(out)@ + u64_be_bytes(value),
{
    write_u32(out, (value / 0x1_0000_0000) as u32);
    write_u32(out, (value % 0x1_0000_0000) as u32);
    assert(out@ =~= old(out)@ + u64_be_bytes(value));
}

/// Append `bytes` to `out`.
pub fn write_bytes(out: &mut Vec<u8>, bytes: &[u8])
    ensures
        final(out)@ == old(out)@ + bytes@,
{
    out.extend_from_slice(bytes);
    assert(out@ =~= old(out)@ + bytes@);
}

/// Return a copy of `bytes`.
pub fn owned(bytes: &[u8]) -> (res: Vec<u8>)
    ensures
        res@ == bytes@,
{
    let mut res: Vec<u8> = Vec::new();
    write_bytes(&mut res, bytes);
    assert(res@ =~= bytes@);
    res
}

/// A `u32` is read from the first four bytes, the most significant of which comes first.
pub proof fn law_u32_is_read_from_four_bytes(data: Seq<u8>)
    ensures
        u32_parsed(data) is Some <==> data.len() >= 4,
        u32_parsed(data) matches Some((value, rest)) ==> {
            &&& value == data[0] * 0x100_0000 + data[1] * 0x1_0000 + data[2] * 0x100 + data[3]
            &&& rest == data.skip(4)
        },
{
    if data.len() >= 4 {
        let bytes = data.subrange(0, 4);
        assert(bytes[0] == data[0] && bytes[1] == data[1] && bytes[2] == data[2] && bytes[3] == data[3]);
        assert(data.subrange(4, data.len() as int) =~= data.skip(4));
    }
}

/// A `u32` is written to four bytes, the most significant of which comes first.
pub proof fn law_u32_is_written_to_four_bytes(value: u32)
    ensures
        u32_be_bytes(value).len() == 4,
        value == u32_be_bytes(value)[0] * 0x100_0000 + u32_be_bytes(value)[1] * 0x1_0000 + u32_be_bytes(value)[2]
            * 0x100 + u32_be_bytes(value)[3],
{
    lemma_u32_round_trip(value);
    law_u32_is_read_from_four_bytes(u32_be_bytes(value));
    assert(u32_be_bytes(value).subrange(0, 4) =~= u32_be_bytes(value));
}

/// A `u64` is read from the first eight bytes, the most significant of which comes first.
pub proof fn law_u64_is_read_from_eight_bytes(data: Seq<u8>)
    ensures
        u64_parsed(data) is Some <==> data.len() >= 8,
        u64_parsed(data) matches Some((value, rest)) ==> {
            &&& value == (data[0] * 0x100_0000 + data[1] * 0x1_0000 + data[2] * 0x100 + data[3]) * 0x1_0000_0000 + (
            data[4] * 0x100_0000 + data[5] * 0x1_0000 + data[6] * 0x100 + data[7])
            &&& rest == data.skip(8)
        },
{
    if data.len() >= 8 {
        let bytes = data.subrange(0, 8);
        let high = bytes.subrange(0, 4);
        let low = bytes.subrange(4, 8);
        assert(high[0] == data[0] && high[1] == data[1] && high[2] == data[2] && high[3] == data[3]);
        assert(low[0] == data[4] && low[1] == data[5] && low[2] == data[6] && low[3] == data[7]);
        assert(data.subrange(8, data.len() as int) =~= data.skip(8));
    }
}

/// Bytes are split off where their amount says, and nothing is lost.
pub proof fn law_split_bytes_are_those_in_front(data: Seq<u8>, len: int)
    ensures
        split_bytes(data, len) is Some <==> 0 <= len <= data.len(),
        split_bytes(data, len) matches Some((bytes, rest)) ==> bytes == data.take(len) && rest == data.skip(len),
{
    if 0 <= len <= data.len() {
        assert(data.subrange(0, len) =~= data.take(len));
        assert(data.subrange(len, data.len() as int) =~= data.skip(len));
    }
}

/// A number below 128 is its own representation as variable-length integer. That of any other number is the one of its
/// quotient by 128, less one, with the flag that another byte follows, and the remainder as another byte.
pub proof fn law_var_int_representation(value: nat)
    ensures
        value < 128 ==> var_int_bytes(value) == seq![value as u8],
        value >= 128 ==> {
            let shorter = var_int_bytes((value / 128 - 1) as nat);
            var_int_bytes(value) == shorter.update(shorter.len() - 1, (shorter.last() + 128) as u8).push(
                (value % 128) as u8,
            )
        },
{
    if value < 128 {
        assert(var_int_bytes(value) =~= seq![value as u8]);
    } else {
        let quotient = value / 128;
        let shorter = var_int_bytes((quotient - 1) as nat);
        assert(var_int_prefix(quotient) =~= shorter.update(shorter.len() - 1, (shorter.last() + 128) as u8));
    }
}

/// Exactly the variable-length integers of at most 64 bits are read.
pub proof fn law_var_int_is_read_up_to_64_bits(value: nat, rest: Seq<u8>)
    ensures
        value <= u64::MAX ==> var_int_parsed(var_int_bytes(value) + rest) == Some((value as u64, rest)),
        value > u64::MAX ==> var_int_parsed(var_int_bytes(value) + rest) is None,
{
    let last = (value % 128) as u8;
    let with_last = seq![last] + rest;
    assert(var_int_bytes(value) + rest =~= var_int_prefix(value / 128) + with_last);
    lemma_var_int_prefix_value(value / 128, with_last);
    assert(with_last.drop_first() =~= rest);
}

/// A string comes before another one if it is what the other starts with, or if it has the smaller byte where they
/// first differ, and in no other case.
pub proof fn law_strings_are_ordered_by_bytes(a: Seq<u8>, b: Seq<u8>)
    ensures
        precedes(a, b) <==> {
            ||| a.len() < b.len() && a == b.take(a.len() as int)
            ||| exists|i: int|
                0 <= i < a.len() && i < b.len() && #[trigger] a.take(i) == b.take(i) && a[i] < b[i]
        },
    decreases a.len(),
{
    if a.len() == 0 {
        assert(b.take(0) =~= a);
    } else if b.len() > 0 {
        let (a_rest, b_rest) = (a.drop_first(), b.drop_first());
        law_strings_are_ordered_by_bytes(a_rest, b_rest);
        assert forall|i: int| 0 <= i <= a_rest.len() && i <= b_rest.len() && a[0] == b[0] implies (
        #[trigger] a_rest.take(i) == b_rest.take(i)) == (a.take(i + 1) == b.take(i + 1)) by {
            lemma_take_after_first(a, b, i);
        }
        if precedes(a, b) {
            if a[0] < b[0] {
                assert(a.take(0) =~= b.take(0));
            } else if a_rest.len() < b_rest.len() && a_rest == b_rest.take(a_rest.len() as int) {
                assert(a_rest.take(a_rest.len() as int) =~= a_rest);
                assert(a.take(a.len() as int) =~= a);
                lemma_take_after_first(a, b, a_rest.len() as int);
            } else {
                let i = choose|i: int|
                    0 <= i < a_rest.len() && i < b_rest.len() && #[trigger] a_rest.take(i) == b_rest.take(i)
                        && a_rest[i] < b_rest[i];
                lemma_take_after_first(a, b, i);
                assert(a.take(i + 1) == b.take(i + 1) && a[i + 1] < b[i + 1]);
            }
        }
        if a.len() < b.len() && a == b.take(a.len() as int) {
            assert(a[0] == b[0]);
            assert(a_rest =~= b_rest.take(a_rest.len() as int));
        }
        if exists|i: int| 0 <= i < a.len() && i < b.len() && #[trigger] a.take(i) == b.take(i) && a[i] < b[i] {
            let i = choose|i: int| 0 <= i < a.len() && i < b.len() && #[trigger] a.take(i) == b.take(i) && a[i] < b[i];
            if i > 0 {
                assert(a.take(i)[0] == b.take(i)[0]);
                lemma_take_after_first(a, b, i - 1);
                assert(a_rest.take(i - 1) == b_rest.take(i - 1) && a_rest[i - 1] < b_rest[i - 1]);
            }
        }
    }
}

/// Strings that start with the same byte have the same start if it is the same after that byte.
proof fn lemma_take_after_first(a: Seq<u8>, b: Seq<u8>, len: int)
    requires
        0 <= len < a.len(),
        len < b.len(),
        a[0] == b[0],
    ensures
        a.drop_first().take(len) == b.drop_first().take(len) <==> a.take(len + 1) == b.take(len + 1),
{
    let (a_start, b_start) = (a.take(len + 1), b.take(len + 1));
    assert(a_start.drop_first() =~= a.drop_first().take(len));
    assert(b_start.drop_first() =~= b.drop_first().take(len));
    assert(a_start =~= seq![a[0]] + a_start.drop_first());
    assert(b_start =~= seq![b[0]] + b_start.drop_first());
}

/// A string comes before all longer ones that start with it.
pub proof fn law_longer_string_comes_later(text: Seq<u8>, more: Seq<u8>)
    requires
        more.len() > 0,
    ensures
        precedes(text, text + more),
        !precedes(text + more, text),
{
    let longer = text + more;
    assert(longer.take(text.len() as int) =~= text);
    law_strings_are_ordered_by_bytes(text, longer);
    law_strings_are_ordered_by_bytes(longer, text);
    if exists|i: int| 0 <= i < longer.len() && i < text.len() && #[trigger] longer.take(i) == text.take(i) && longer[i]
        < text[i] {
        let i = choose|i: int|
            0 <= i < longer.len() && i < text.len() && #[trigger] longer.take(i) == text.take(i) && longer[i] < text[i];
        assert(longer[i] == text[i]);
    }
}

} // verus!
