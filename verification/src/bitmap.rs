//! EWAH-compressed bitmaps, which the `gix_bitmap` crate implements.

use vstd::prelude::*;

use crate::util::lemma_u32_bytes_round_trip;
use crate::util::lemma_u32_round_trip;
use crate::util::lemma_u64_bytes_round_trip;
use crate::util::lemma_u64_round_trip;
use crate::util::u32_be_bytes;
use crate::util::u32_be_value;
use crate::util::u64_be_bytes;
use crate::util::u64_be_value;

verus! {

/// A growable collection of bits in compressed form, whose contents only `gix_bitmap` can see.
#[verifier::external_type_specification]
#[verifier::external_body]
pub struct ExEwahVec(gix_bitmap::ewah::Vec);

/// The 64-bit words that `bitmap` holds: run-length words, each followed by the literal words that it announces.
pub uninterp spec fn ewah_words(bitmap: gix_bitmap::ewah::Vec) -> Seq<u64>;

/// The amount of bits that `bitmap` was made for.
pub uninterp spec fn ewah_num_bits(bitmap: gix_bitmap::ewah::Vec) -> u32;

/// The position of the last run-length word among the words of `bitmap`.
pub uninterp spec fn ewah_rlw(bitmap: gix_bitmap::ewah::Vec) -> u64;

/// The positions that `gix_bitmap::ewah::Vec::for_each_set_bit()` visits in a bitmap of `num_bits` bits with the
/// given `words`, in that order, and whether it gets to the end of `words` without finding them malformed.
pub uninterp spec fn ewah_walk(num_bits: u32, words: Seq<u64>) -> (Seq<usize>, bool);

/// What there is to know of a bitmap.
#[verifier::ext_equal]
pub struct Bitmap {
    /// The amount of bits.
    pub num_bits: u32,
    /// The run-length words and literal words.
    pub words: Seq<u64>,
    /// The position of the last run-length word.
    pub rlw: u64,
}

/// What there is to know of `bitmap`.
pub open spec fn bitmap_view(bitmap: gix_bitmap::ewah::Vec) -> Bitmap {
    Bitmap { num_bits: ewah_num_bits(bitmap), words: ewah_words(bitmap), rlw: ewah_rlw(bitmap) }
}

impl Bitmap {
    /// The positions of set bits in ascending order, up to where the bitmap is malformed.
    pub open spec fn set_bits(self) -> Seq<usize> {
        ewah_walk(self.num_bits, self.words).0
    }

    /// Whether the words describe no more bits than there are, and end where the last run-length word says.
    pub open spec fn is_well_formed(self) -> bool {
        ewah_walk(self.num_bits, self.words).1
    }

    /// Whether all counts fit the fields that they have on disk.
    pub open spec fn is_encodable(self) -> bool {
        self.words.len() <= u32::MAX && self.rlw <= u32::MAX
    }

    /// The bytes of the words on disk.
    pub open spec fn word_bytes(self) -> Seq<u8> {
        Seq::new(8 * self.words.len(), |i: int| u64_be_bytes(self.words[i / 8])[i % 8])
    }

    /// The bytes of the bitmap on disk: the amount of bits, the amount of words, the words, and the position of the
    /// last run-length word.
    pub open spec fn encoded(self) -> Seq<u8> {
        u32_be_bytes(self.num_bits) + u32_be_bytes(self.words.len() as u32) + self.word_bytes() + u32_be_bytes(
            self.rlw as u32,
        )
    }
}

/// The amount of words that the bitmap at the start of `data` announces.
pub open spec fn announced_words(data: Seq<u8>) -> nat {
    u32_be_value(data.subrange(4, 8)) as nat
}

/// The amount of bytes that the bitmap at the start of `data` takes up.
pub open spec fn announced_len(data: Seq<u8>) -> int {
    12 + 8 * announced_words(data) as int
}

/// The bitmap that `data` starts with and what follows it.
pub open spec fn bitmap_parsed(data: Seq<u8>) -> Option<(Bitmap, Seq<u8>)> {
    if 8 <= data.len() && announced_len(data) <= data.len() {
        let len = announced_len(data);
        Some(
            (
                Bitmap {
                    num_bits: u32_be_value(data.subrange(0, 4)),
                    words: Seq::new(
                        announced_words(data),
                        |i: int| u64_be_value(data.subrange(8 + 8 * i, 16 + 8 * i)),
                    ),
                    rlw: u32_be_value(data.subrange(len - 4, len)) as u64,
                },
                data.subrange(len, data.len() as int),
            ),
        )
    } else {
        None
    }
}

/// The positions at which `bits` are true, in ascending order.
pub open spec fn true_positions(bits: Seq<bool>) -> Seq<usize>
    decreases bits.len(),
{
    if bits.len() == 0 {
        Seq::empty()
    } else if bits.last() {
        true_positions(bits.drop_last()).push((bits.len() - 1) as usize)
    } else {
        true_positions(bits.drop_last())
    }
}

/// Whether `positions` are in ascending order.
pub open spec fn is_ascending(positions: Seq<usize>) -> bool {
    forall|i: int, j: int| 0 <= i < j < positions.len() ==> positions[i] < positions[j]
}

/// The true positions are in ascending order, and there is one for each true bit.
pub proof fn law_true_positions_are_those_of_true_bits(bits: Seq<bool>)
    requires
        bits.len() <= usize::MAX,
    ensures
        is_ascending(true_positions(bits)),
        forall|j: int|
            0 <= j < true_positions(bits).len() ==> #[trigger] true_positions(bits)[j] < bits.len()
                && bits[true_positions(bits)[j] as int],
        forall|i: int| 0 <= i < bits.len() && bits[i] ==> true_positions(bits).contains(i as usize),
    decreases bits.len(),
{
    if bits.len() > 0 {
        let before = bits.drop_last();
        law_true_positions_are_those_of_true_bits(before);
        let positions = true_positions(bits);
        assert forall|i: int| 0 <= i < bits.len() && bits[i] implies positions.contains(i as usize) by {
            if i < before.len() {
                assert(before[i]);
                let j = choose|j: int|
                    0 <= j < true_positions(before).len() && true_positions(before)[j] == i as usize;
                assert(positions[j] == i as usize);
            } else {
                assert(positions[positions.len() - 1] == i as usize);
            }
        }
    }
}

/// A bit is true if its position is one of the true positions.
pub proof fn lemma_position_of_bit(bits: Seq<bool>, index: int)
    requires
        bits.len() <= usize::MAX,
        0 <= index < bits.len(),
    ensures
        true_positions(bits).contains(index as usize) == bits[index],
{
    law_true_positions_are_those_of_true_bits(bits);
    let positions = true_positions(bits);
    if positions.contains(index as usize) {
        let j = choose|j: int| 0 <= j < positions.len() && positions[j] == index as usize;
        assert(bits[positions[j] as int]);
    }
}

/// The number in which the bit of value `2^i` is set exactly if `bits[i]` is true.
pub open spec fn literal_word(bits: Seq<bool>) -> nat
    decreases bits.len(),
{
    if bits.len() == 0 {
        0
    } else {
        (if bits[0] { 1nat } else { 0nat }) + 2 * literal_word(bits.drop_first())
    }
}

/// The amount of 64-bit words that it takes to hold `len` bits.
pub open spec fn literal_word_count(len: nat) -> nat {
    (len + 63) / 64
}

/// The bitmap that holds `bits` without compression: one run-length word that announces only literal words, and these
/// words.
pub open spec fn literal_bitmap(bits: Seq<bool>) -> Bitmap {
    let count = literal_word_count(bits.len());
    Bitmap {
        num_bits: bits.len() as u32,
        words: seq![(count * 0x2_0000_0000) as u64] + Seq::new(
            count,
            |i: int|
                literal_word(
                    bits.subrange(
                        64 * i,
                        if 64 * i + 64 <= bits.len() {
                            64 * i + 64
                        } else {
                            bits.len() as int
                        },
                    ),
                ) as u64,
        ),
        rlw: 0,
    }
}

/// The counts of a bitmap without compression fit the fields that they have on disk.
pub proof fn lemma_literal_bitmap_is_encodable(bits: Seq<bool>)
    requires
        bits.len() <= u32::MAX,
    ensures
        literal_bitmap(bits).is_encodable(),
        literal_bitmap(bits).num_bits == bits.len(),
{
    assert(literal_word_count(bits.len()) <= 0x400_0000);
}

/// The bytes of a word are found where the word is.
proof fn lemma_word_bytes(bitmap: Bitmap, index: int)
    requires
        0 <= index < bitmap.words.len(),
    ensures
        bitmap.word_bytes().subrange(8 * index, 8 * index + 8) == u64_be_bytes(bitmap.words[index]),
{
    lemma_u64_round_trip(bitmap.words[index]);
    let bytes = bitmap.word_bytes().subrange(8 * index, 8 * index + 8);
    assert forall|i: int| 0 <= i < 8 implies bytes[i] == u64_be_bytes(bitmap.words[index])[i] by {
        assert((8 * index + i) / 8 == index && (8 * index + i) % 8 == i);
    }
    assert(bytes =~= u64_be_bytes(bitmap.words[index]));
}

/// Reading a bitmap gives back what was written, and leaves what follows it.
pub proof fn law_bitmap_read_gives_back_written(bitmap: Bitmap, rest: Seq<u8>)
    requires
        bitmap.is_encodable(),
    ensures
        bitmap.encoded().len() == 12 + 8 * bitmap.words.len(),
        bitmap_parsed(bitmap.encoded() + rest) == Some((bitmap, rest)),
{
    let count = bitmap.words.len();
    let num_bits_bytes = u32_be_bytes(bitmap.num_bits);
    let count_bytes = u32_be_bytes(count as u32);
    let word_bytes = bitmap.word_bytes();
    let rlw_bytes = u32_be_bytes(bitmap.rlw as u32);
    lemma_u32_round_trip(bitmap.num_bits);
    lemma_u32_round_trip(count as u32);
    lemma_u32_round_trip(bitmap.rlw as u32);
    let data = bitmap.encoded() + rest;
    assert(data =~= num_bits_bytes + (count_bytes + (word_bytes + (rlw_bytes + rest))));
    assert(data.subrange(0, 4) =~= num_bits_bytes);
    assert(data.subrange(4, 8) =~= count_bytes);
    assert(announced_words(data) == count);
    let len = announced_len(data);
    assert(data.subrange(len - 4, len) =~= rlw_bytes);
    assert(data.subrange(len, data.len() as int) =~= rest);
    let parsed = (bitmap_parsed(data)->0).0;
    assert forall|i: int| 0 <= i < count implies parsed.words[i] == bitmap.words[i] by {
        lemma_word_bytes(bitmap, i);
        assert(data.subrange(8 + 8 * i, 16 + 8 * i) =~= word_bytes.subrange(8 * i, 8 * i + 8));
        lemma_u64_round_trip(bitmap.words[i]);
    }
    assert(parsed.words =~= bitmap.words);
}

/// A bitmap that was read is written to the bytes that it was read from.
pub proof fn law_bitmap_is_written_as_read(data: Seq<u8>)
    ensures
        bitmap_parsed(data) matches Some((bitmap, rest)) ==> {
            &&& bitmap.is_encodable()
            &&& data == bitmap.encoded() + rest
        },
{
    if let Some((bitmap, rest)) = bitmap_parsed(data) {
        let count = announced_words(data);
        let len = announced_len(data);
        lemma_u32_bytes_round_trip(data.subrange(0, 4));
        lemma_u32_bytes_round_trip(data.subrange(4, 8));
        lemma_u32_bytes_round_trip(data.subrange(len - 4, len));
        let words = data.subrange(8, len - 4);
        assert forall|i: int| 0 <= i < words.len() implies words[i] == bitmap.word_bytes()[i] by {
            let word = data.subrange(8 + 8 * (i / 8), 16 + 8 * (i / 8));
            lemma_u64_bytes_round_trip(word);
            assert(u64_be_bytes(bitmap.words[i / 8]) == word);
            assert(word[i % 8] == data[8 + i]);
        }
        assert(words =~= bitmap.word_bytes());
        assert(data =~= data.subrange(0, 4) + data.subrange(4, 8) + words + data.subrange(len - 4, len) + rest);
    }
}

/// A bitmap is read the same way if more bytes follow.
pub proof fn lemma_bitmap_extended(data: Seq<u8>, more: Seq<u8>)
    ensures
        bitmap_parsed(data) matches Some((bitmap, rest)) ==> bitmap_parsed(data + more) == Some((bitmap, rest + more)),
{
    law_bitmap_is_written_as_read(data);
    if let Some((bitmap, rest)) = bitmap_parsed(data) {
        assert(data + more =~= bitmap.encoded() + (rest + more));
        law_bitmap_read_gives_back_written(bitmap, rest + more);
    }
}

/// A clone of a bitmap holds the same words, for the same amount of bits.
///
/// This is the `Clone` implementation of `gix_bitmap::ewah::Vec`, which is derived.
pub assume_specification[ <gix_bitmap::ewah::Vec as Clone>::clone ](
    bitmap: &gix_bitmap::ewah::Vec,
) -> (res: gix_bitmap::ewah::Vec)
    ensures
        ewah_words(res) == ewah_words(*bitmap),
        ewah_num_bits(res) == ewah_num_bits(*bitmap),
        ewah_rlw(res) == ewah_rlw(*bitmap),
;

/// Create a bitmap from `bits`, or return `None` if there are more than `u32::MAX` of them.
///
/// This is `gix_bitmap::ewah::Vec::from_bits()`, which produces literal words only. Walking over the set bits then
/// visits the positions at which `bits` are true, in ascending order, and finds nothing malformed.
#[verifier::external_body]
pub(crate) fn bitmap_from_bits(bits: &[bool]) -> (res: Option<gix_bitmap::ewah::Vec>)
    ensures
        res is Some <==> bits@.len() <= u32::MAX,
        res matches Some(bitmap) ==> bitmap_view(bitmap) == literal_bitmap(bits@),
        res matches Some(bitmap) ==> ewah_walk(ewah_num_bits(bitmap), ewah_words(bitmap)) == (
            true_positions(bits@),
            true,
        ),
{
    gix_bitmap::ewah::Vec::from_bits(bits)
}

/// Read a bitmap off the front of `data`, or return `None` if there are not enough bytes.
///
/// This is `gix_bitmap::ewah::decode()`, which takes over all numbers as they are. It only fails if `data` is too
/// short.
#[verifier::external_body]
pub(crate) fn bitmap_from_bytes(data: &[u8]) -> (res: Option<(gix_bitmap::ewah::Vec, &[u8])>)
    ensures
        match res {
            Some((bitmap, rest)) => bitmap_parsed(data@) == Some((bitmap_view(bitmap), rest@)),
            None => bitmap_parsed(data@) is None,
        },
{
    gix_bitmap::ewah::decode(data).ok()
}

/// Append the bytes of `bitmap` to `out` and return true, or return false if its counts do not fit the format.
///
/// This is `gix_bitmap::ewah::Vec::write_to()`, which checks both counts before it writes anything. Writing to a
/// vector cannot fail.
#[verifier::external_body]
pub(crate) fn write_bitmap(bitmap: &gix_bitmap::ewah::Vec, out: &mut Vec<u8>) -> (res: bool)
    ensures
        res == bitmap_view(*bitmap).is_encodable(),
        res ==> final(out)@ == old(out)@ + bitmap_view(*bitmap).encoded(),
        !res ==> final(out)@ == old(out)@,
{
    bitmap.write_to(out).is_ok()
}

/// Return the amount of bits in `bitmap`.
///
/// This is `gix_bitmap::ewah::Vec::num_bits()`.
#[verifier::external_body]
pub(crate) fn bitmap_num_bits(bitmap: &gix_bitmap::ewah::Vec) -> (res: usize)
    ensures
        res == ewah_num_bits(*bitmap),
{
    bitmap.num_bits()
}

/// Add `index` to `indices` and ask for more.
fn collect_index(indices: &mut Vec<usize>, index: usize) -> (res: Option<()>)
    ensures
        final(indices)@ == old(indices)@.push(index),
        res == Some(()),
{
    indices.push(index);
    Some(())
}

/// Return the positions of the set bits of `bitmap` in ascending order, and whether it is well-formed up to its end.
///
/// This is `gix_bitmap::ewah::Vec::for_each_set_bit()`, which depends on the amount of bits and the words alone. It
/// stops with `None` at the first sign of the words being malformed, and visits each position at most once, none of
/// them beyond the amount of bits.
#[verifier::external_body]
pub(crate) fn bitmap_set_bits(bitmap: &gix_bitmap::ewah::Vec) -> (res: (Vec<usize>, bool))
    ensures
        (res.0@, res.1) == ewah_walk(ewah_num_bits(*bitmap), ewah_words(*bitmap)),
        forall|i: int| 0 <= i < res.0@.len() ==> #[trigger] res.0@[i] < ewah_num_bits(*bitmap),
        forall|i: int, j: int| 0 <= i < j < res.0@.len() ==> res.0@[i] < res.0@[j],
{
    let mut indices: Vec<usize> = Vec::new();
    let well_formed = bitmap.for_each_set_bit(|index| collect_index(&mut indices, index)).is_some();
    (indices, well_formed)
}

/// A bitmap is read from the amount of its bits, the amount of its words, the words, and the position of the last
/// run-length word, and from nothing else.
pub proof fn law_bitmap_is_read_from_its_words(data: Seq<u8>)
    ensures
        bitmap_parsed(data) is Some <==> data.len() >= 8 && data.len() >= 12 + 8 * u32_be_value(data.subrange(4, 8)),
        bitmap_parsed(data) matches Some((bitmap, rest)) ==> {
            let count = bitmap.words.len() as int;
            &&& bitmap.num_bits == u32_be_value(data.subrange(0, 4))
            &&& count == u32_be_value(data.subrange(4, 8))
            &&& forall|i: int|
                0 <= i < count ==> #[trigger] bitmap.words[i] == u64_be_value(data.subrange(8 + 8 * i, 16 + 8 * i))
            &&& bitmap.rlw == u32_be_value(data.subrange(8 + 8 * count, 12 + 8 * count))
            &&& rest == data.skip(12 + 8 * count)
        },
{
    if let Some((bitmap, rest)) = bitmap_parsed(data) {
        let len = announced_len(data);
        assert(data.subrange(len, data.len() as int) =~= data.skip(len));
    }
}

} // verus!
