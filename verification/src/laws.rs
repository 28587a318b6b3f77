//! Laws that hold of the functions in [`crate::impls`], stated over their
//! models.

use vstd::prelude::*;
use vstd::math::min;
use crate::{FillBytes, NextU32, NextU64};
use crate::impls::{
    bytes_filled, chunk_filled, fills_via_next, full_chunks, has_partial_chunk, join_u32_pair,
    le_stream, lemma_le_stream_len, words_consumed, Observable,
};
use crate::le::{
    lemma_le_form_len, lemma_le_form_of_value, lemma_le_value_concat, lemma_le_value_of_form,
    lemma_radix_power_of_words, lemma_u32_le_bytes_injective, lemma_u64_le_bytes_injective,
    u32_le_bytes, u64_le_bytes,
};

verus! {

/// How the two counts that a chunked fill returns relate to each other and
/// to its inputs.
///
/// No more words are read than there are, and no more bytes written than
/// there is room. Without a partial word the bytes are those of the words
/// read. With one, all the room is filled: the words read but the last are
/// there in full, and the last one with fewer bytes than its width.
pub proof fn lemma_fill_counts(words: nat, room: nat, width: nat)
    requires
        width > 0,
    ensures
        words_consumed(words, room, width) <= words,
        bytes_filled(words, room, width) <= room,
        !has_partial_chunk(words, room, width) ==> bytes_filled(words, room, width)
            == words_consumed(words, room, width) * width,
        has_partial_chunk(words, room, width) ==> bytes_filled(words, room, width) == room,
        has_partial_chunk(words, room, width) ==> room == (words_consumed(words, room, width) - 1)
            * width + room % width,
        has_partial_chunk(words, room, width) ==> 0 < room % width < width,
{
    let full = full_chunks(words, room, width);
    assert(room == (room / width) * width + room % width && 0 <= room % width < width) by {
        vstd::arithmetic::div_mod::lemma_fundamental_div_mod(room as int, width as int);
    }
    assert(full * width <= (room / width) * width) by (nonlinear_arith)
        requires
            full <= room / width,
    ;
}

/// The bytes written are the first bytes of the stream of all words: as
/// many as the stream has, or as many as there is room for.
pub proof fn lemma_bytes_filled_is_min<T: Observable>(src: Seq<T>, room: nat)
    ensures
        bytes_filled(src.len(), room, T::width()) == min(le_stream(src).len() as int, room as int),
{
    let width = T::width();
    let words = src.len();
    T::lemma_width_positive();
    lemma_le_stream_len(src);
    vstd::arithmetic::div_mod::lemma_fundamental_div_mod(room as int, width as int);
    if words <= room / width {
        assert(words * width <= (room / width) * width) by (nonlinear_arith)
            requires
                words <= room / width,
        ;
    } else {
        assert(words * width >= (room / width + 1) * width) by (nonlinear_arith)
            requires
                words >= room / width + 1,
        ;
        assert((room / width + 1) * width == width * (room / width) + width)
            by (nonlinear_arith);
    }
}

/// A chunked fill is reproducible: what it writes depends on the words and
/// on the length of the destination alone.
///
/// Two destinations of one length get the same number of bytes written, and
/// the same bytes, whatever they held before; where the fill reaches the
/// end of the destinations, they are equal afterwards. The byte forms are
/// defined by arithmetic on the words' values, so the host's byte order has
/// no part in them.
pub proof fn lemma_fill_reproducible<T: Observable>(src: Seq<T>, dest_a: Seq<u8>, dest_b: Seq<u8>)
    requires
        dest_a.len() == dest_b.len(),
    ensures
        ({
            let filled = bytes_filled(src.len(), dest_a.len(), T::width());
            let after_a = chunk_filled(src, dest_a);
            let after_b = chunk_filled(src, dest_b);
            &&& filled == bytes_filled(src.len(), dest_b.len(), T::width())
            &&& after_a.len() == after_b.len() == dest_a.len()
            &&& after_a.take(filled as int) == after_b.take(filled as int)
            &&& filled == dest_a.len() ==> after_a == after_b
        }),
{
    lemma_bytes_filled_is_min(src, dest_a.len());
}

/// What lies behind the bytes written keeps its value.
pub proof fn lemma_fill_keeps_suffix<T: Observable>(src: Seq<T>, dest: Seq<u8>, i: int)
    requires
        bytes_filled(src.len(), dest.len(), T::width()) <= i < dest.len(),
    ensures
        chunk_filled(src, dest)[i] == dest[i],
{
    lemma_bytes_filled_is_min(src, dest.len());
}

/// The promotion rule in bits: the second draw shifted into the high half,
/// joined with the first draw in the low half.
pub proof fn lemma_join_is_shift_or(x: u32, y: u32)
    ensures
        join_u32_pair(x, y) == ((y as u64) << 32) | (x as u64),
{
    assert(((y as u64) << 32) | (x as u64) == (x as u64) + 0x1_0000_0000 * (y as u64))
        by (bit_vector);
}

/// The promotion rule is the little-endian one: the byte form of the
/// promoted word is the form of the first draw followed by that of the
/// second.
pub proof fn lemma_join_le_bytes(x: u32, y: u32)
    ensures
        u64_le_bytes(join_u32_pair(x, y)) == u32_le_bytes(x) + u32_le_bytes(y),
{
    let low = u32_le_bytes(x);
    let high = u32_le_bytes(y);
    lemma_le_form_len(x as nat, 4);
    lemma_le_form_len(y as nat, 4);
    lemma_radix_power_of_words();
    lemma_le_value_of_form(x as nat, 4);
    lemma_le_value_of_form(y as nat, 4);
    lemma_le_value_concat(low, high);
    lemma_le_form_of_value(low + high);
}

/// The generator in state `before` makes its bytes from its words: whatever
/// it may fill a buffer with is what filling from its word draws gives.
pub open spec fn bytes_come_from_words<R: NextU32 + NextU64 + FillBytes + ?Sized>(
    before: &R,
) -> bool {
    forall|held: Seq<u8>, bytes: Seq<u8>, after: &R| #[trigger]
        before.draws_bytes(held, bytes, after) ==> fills_via_next(before, bytes, after)
}

/// A 32-bit word read from filled bytes is the word of a direct draw, for a
/// generator that makes its bytes from its words.
///
/// If such a generator fills four bytes with the byte form of `word`, as it
/// does when `next_u32_via_fill` returns `word`, then `word` is what a
/// direct 32-bit draw hands out, and the generator ends in the same state.
pub proof fn lemma_u32_via_fill_is_direct<R: NextU32 + NextU64 + FillBytes + ?Sized>(
    before: &R,
    held: Seq<u8>,
    word: u32,
    after: &R,
)
    requires
        bytes_come_from_words(before),
        before.draws_bytes(held, u32_le_bytes(word), after),
    ensures
        before.draws_u32(word, after),
{
    let bytes = u32_le_bytes(word);
    lemma_le_form_len(word as nat, 4);
    let drawn = choose|drawn: u32|
        before.draws_u32(drawn, after) && bytes == u32_le_bytes(drawn).take(bytes.len() as int);
    lemma_le_form_len(drawn as nat, 4);
    assert(u32_le_bytes(drawn).take(4) == u32_le_bytes(drawn));
    lemma_u32_le_bytes_injective(word, drawn);
}

/// A 64-bit word read from filled bytes is the word of a direct draw, for a
/// generator that makes its bytes from its words.
///
/// If such a generator fills eight bytes with the byte form of `word`, as
/// it does when `next_u64_via_fill` returns `word`, then `word` is what a
/// direct 64-bit draw hands out, and the generator ends in the same state.
pub proof fn lemma_u64_via_fill_is_direct<R: NextU32 + NextU64 + FillBytes + ?Sized>(
    before: &R,
    held: Seq<u8>,
    word: u64,
    after: &R,
)
    requires
        bytes_come_from_words(before),
        before.draws_bytes(held, u64_le_bytes(word), after),
    ensures
        before.draws_u64(word, after),
{
    let bytes = u64_le_bytes(word);
    lemma_le_form_len(word as nat, 8);
    let (drawn, mid) = choose|drawn: u64, mid: &R|
        before.draws_u64(drawn, mid) && bytes.take(8) == u64_le_bytes(drawn) && fills_via_next(
            mid,
            bytes.skip(8),
            after,
        );
    assert(bytes.take(8) == bytes);
    lemma_u64_le_bytes_injective(word, drawn);
}

} // verus!
