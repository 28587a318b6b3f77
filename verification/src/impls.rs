//! Deriving one generator output from another.
//!
//! Everything here uses little-endian order, least significant part first,
//! so that derived values are the same on every platform. A 64-bit word made
//! of 32-bit draws `x` then `y` is `(y << 32) | x`; bytes made of words are
//! the words' little-endian byte forms; a word made of bytes reads them as
//! such a form.

use vstd::prelude::*;
use crate::{FillBytes, NextU32, NextU64};
use crate::le::{
    lemma_le_form_digit, lemma_le_form_len, radix_power, u32_from_le_bytes, u32_le_bytes,
    u64_from_le_bytes, u64_le_bytes,
};

verus! {

/// The 64-bit word whose low half is `x` and whose high half is `y`.
pub open spec fn join_u32_pair(x: u32, y: u32) -> u64 {
    (x + 0x1_0000_0000 * y) as u64
}

/// The generator goes from `before` to `after` by two 32-bit draws, and
/// `word` has the first of them as its low half and the second as its high
/// half.
pub open spec fn draws_u64_via_u32<R: NextU32 + ?Sized>(before: &R, word: u64, after: &R) -> bool {
    exists|x: u32, mid: &R, y: u32|
        #![trigger before.draws_u32(x, mid), mid.draws_u32(y, after)]
        before.draws_u32(x, mid) && mid.draws_u32(y, after) && word == join_u32_pair(x, y)
}

/// Produces a 64-bit word from two 32-bit draws, the first in the low half.
pub fn next_u64_via_u32<R: NextU32 + ?Sized>(rng: &mut R) -> (word: u64)
    ensures
        draws_u64_via_u32(old(rng), word, final(rng)),
{
    let x: u64 = rng.next_u32() as u64;
    let ghost mid = &*rng;
    let y: u64 = rng.next_u32() as u64;
    let word: u64 = (y << 32) | x;
    proof {
        assert(word == x + 0x1_0000_0000 * y) by (bit_vector)
            requires
                word == (y << 32) | x,
                x < 0x1_0000_0000 && y < 0x1_0000_0000,
        ;
        assert(old(rng).draws_u32(x as u32, mid) && mid.draws_u32(y as u32, rng));
    }
    word
}

/// `bytes` is what a buffer holds after it was filled from the words of a
/// generator that went from `before` to `after`.
///
/// As long as eight bytes or more are to be filled, a 64-bit draw gives the
/// next eight. Five to seven bytes at the end are the first bytes of one
/// more 64-bit draw, one to four bytes those of a 32-bit draw. Where nothing
/// is left to fill, nothing is drawn.
pub open spec fn fills_via_next<R: NextU32 + NextU64 + ?Sized>(
    before: &R,
    bytes: Seq<u8>,
    after: &R,
) -> bool
    decreases bytes.len(),
{
    if bytes.len() >= 8 {
        exists|word: u64, mid: &R|
            #![trigger before.draws_u64(word, mid)]
            before.draws_u64(word, mid) && bytes.take(8) == u64_le_bytes(word) && fills_via_next(
                mid,
                bytes.skip(8),
                after,
            )
    } else if bytes.len() > 4 {
        exists|word: u64|
            #![trigger before.draws_u64(word, after)]
            before.draws_u64(word, after) && bytes == u64_le_bytes(word).take(bytes.len() as int)
    } else if bytes.len() > 0 {
        exists|word: u32|
            #![trigger before.draws_u32(word, after)]
            before.draws_u32(word, after) && bytes == u32_le_bytes(word).take(bytes.len() as int)
    } else {
        before == after
    }
}

/// A 64-bit draw followed by a fill is a fill of eight bytes more.
pub proof fn lemma_fills_via_next_step<R: NextU32 + NextU64 + ?Sized>(
    before: &R,
    word: u64,
    mid: &R,
    rest: Seq<u8>,
    after: &R,
)
    requires
        before.draws_u64(word, mid),
        fills_via_next(mid, rest, after),
    ensures
        fills_via_next(before, u64_le_bytes(word) + rest, after),
{
    let bytes = u64_le_bytes(word) + rest;
    lemma_le_form_len(word as nat, 8);
    assert(bytes.take(8) == u64_le_bytes(word));
    assert(bytes.skip(8) == rest);
}

/// Fills all of `dest` from the generator's words, in little-endian order.
///
/// Draws 64-bit words as long as it can use one in full or more than half
/// of one, and a single 32-bit word for a rest of four bytes or fewer.
pub fn fill_bytes_via_next<R: NextU32 + NextU64 + ?Sized>(rng: &mut R, dest: &mut [u8])
    ensures
        final(dest)@.len() == old(dest)@.len(),
        fills_via_next(old(rng), final(dest)@, final(rng)),
{
    let len: usize = dest.len();
    let mut at: usize = 0;
    while len - at >= 8
        invariant
            at <= len == dest@.len(),
            forall|tail: Seq<u8>, end: &R| #[trigger]
                fills_via_next(rng, tail, end) ==> fills_via_next(
                    old(rng),
                    dest@.take(at as int) + tail,
                    end,
                ),
        decreases len - at,
    {
        let ghost cur = &*rng;
        let ghost written = dest@.take(at as int);
        let word: u64 = rng.next_u64();
        put_le_prefix(word, dest, at, 8);
        at += 8;
        proof {
            lemma_le_form_len(word as nat, 8);
            assert forall|tail: Seq<u8>, end: &R| #[trigger]
                fills_via_next(rng, tail, end) implies fills_via_next(
                old(rng),
                dest@.take(at as int) + tail,
                end,
            ) by {
                lemma_fills_via_next_step(cur, word, rng, tail, end);
                assert(dest@.take(at as int) + tail == written + (u64_le_bytes(word) + tail));
            }
        }
    }
    let n: usize = len - at;
    let ghost cur = &*rng;
    if n > 4 {
        let word: u64 = rng.next_u64();
        put_le_prefix(word, dest, at, n);
        proof {
            lemma_le_form_len(word as nat, 8);
            assert(fills_via_next(cur, u64_le_bytes(word).take(n as int), rng));
        }
    } else if n > 0 {
        let word: u32 = rng.next_u32();
        put_le_prefix(word, dest, at, n);
        proof {
            lemma_le_form_len(word as nat, 4);
            assert(fills_via_next(cur, u32_le_bytes(word).take(n as int), rng));
        }
    } else {
        proof {
            assert(fills_via_next(cur, Seq::empty(), rng));
            assert(dest@ == dest@.take(at as int) + Seq::<u8>::empty());
        }
    }
}

/// A native word with a little-endian byte form of fixed width.
pub trait Observable: Copy {
    /// The number of bytes in the form of every word of this type.
    spec fn width() -> nat;

    /// The word's little-endian byte form.
    spec fn le_bytes(self) -> Seq<u8>;

    /// A form has at least one byte.
    proof fn lemma_width_positive()
        ensures
            Self::width() > 0,
    ;

    /// Every form has exactly `width()` bytes.
    proof fn lemma_form_width(self)
        ensures
            self.le_bytes().len() == Self::width(),
    ;

    /// The width as a machine number.
    fn size() -> (n: usize)
        ensures
            n == Self::width(),
    ;

    /// The byte at position `i` of the word's form.
    fn le_byte(self, i: usize) -> (byte: u8)
        requires
            i < Self::width(),
        ensures
            byte == self.le_bytes()[i as int],
    ;
}

impl Observable for u32 {
    open spec fn width() -> nat {
        4
    }

    open spec fn le_bytes(self) -> Seq<u8> {
        u32_le_bytes(self)
    }

    proof fn lemma_width_positive() {
    }

    proof fn lemma_form_width(self) {
        lemma_le_form_len(self as nat, 4);
    }

    fn size() -> (n: usize) {
        4
    }

    fn le_byte(self, i: usize) -> (byte: u8) {
        let shift: u32 = 8 * (i as u32);
        let digit: u32 = (self >> shift) & 0xff;
        proof {
            assert({
                &&& digit < 256
                &&& shift == 0 ==> digit == self % 256
                &&& shift == 8 ==> digit == self / 0x100 % 256
                &&& shift == 16 ==> digit == self / 0x1_0000 % 256
                &&& shift == 24 ==> digit == self / 0x100_0000 % 256
            }) by (bit_vector)
                requires
                    digit == (self >> shift) & 0xff,
            ;
            reveal_with_fuel(radix_power, 4);
            lemma_le_form_digit(self as nat, 4, i as nat);
        }
        digit as u8
    }
}

impl Observable for u64 {
    open spec fn width() -> nat {
        8
    }

    open spec fn le_bytes(self) -> Seq<u8> {
        u64_le_bytes(self)
    }

    proof fn lemma_width_positive() {
    }

    proof fn lemma_form_width(self) {
        lemma_le_form_len(self as nat, 8);
    }

    fn size() -> (n: usize) {
        8
    }

    fn le_byte(self, i: usize) -> (byte: u8) {
        let shift: u32 = 8 * (i as u32);
        let digit: u64 = (self >> shift) & 0xff;
        proof {
            assert({
                &&& digit < 256
                &&& shift == 0 ==> digit == self % 256
                &&& shift == 8 ==> digit == self / 0x100 % 256
                &&& shift == 16 ==> digit == self / 0x1_0000 % 256
                &&& shift == 24 ==> digit == self / 0x100_0000 % 256
                &&& shift == 32 ==> digit == self / 0x1_0000_0000 % 256
                &&& shift == 40 ==> digit == self / 0x100_0000_0000 % 256
                &&& shift == 48 ==> digit == self / 0x1_0000_0000_0000 % 256
                &&& shift == 56 ==> digit == self / 0x100_0000_0000_0000 % 256
            }) by (bit_vector)
                requires
                    digit == (self >> shift) & 0xff,
            ;
            reveal_with_fuel(radix_power, 8);
            lemma_le_form_digit(self as nat, 8, i as nat);
        }
        digit as u8
    }
}

/// The byte forms of `words` laid end to end, in order.
pub open spec fn le_stream<T: Observable>(words: Seq<T>) -> Seq<u8>
    decreases words.len(),
{
    if words.len() == 0 {
        Seq::empty()
    } else {
        le_stream(words.drop_last()) + words.last().le_bytes()
    }
}

/// How many whole words are written when `words` words of `width` bytes
/// meet `room` bytes: all of them, or as many as fit.
pub open spec fn full_chunks(words: nat, room: nat, width: nat) -> nat {
    if words <= room / width {
        words
    } else {
        room / width
    }
}

/// Whether a last word is written in part: a word is left over, and so is
/// room that is too short for it.
pub open spec fn has_partial_chunk(words: nat, room: nat, width: nat) -> bool {
    full_chunks(words, room, width) < words && room % width != 0
}

/// How many words are read: the whole ones, and the one written in part.
pub open spec fn words_consumed(words: nat, room: nat, width: nat) -> nat {
    if has_partial_chunk(words, room, width) {
        full_chunks(words, room, width) + 1
    } else {
        full_chunks(words, room, width)
    }
}

/// How many bytes are written: those of the whole words, and what is left
/// of the room where a last word is written in part.
pub open spec fn bytes_filled(words: nat, room: nat, width: nat) -> nat {
    if has_partial_chunk(words, room, width) {
        full_chunks(words, room, width) * width + room % width
    } else {
        full_chunks(words, room, width) * width
    }
}

/// What `dest` holds after it was filled from `src`: as much of the
/// stream of `src` as was written, then what `dest` held before.
pub open spec fn chunk_filled<T: Observable>(src: Seq<T>, dest: Seq<u8>) -> Seq<u8> {
    let filled = bytes_filled(src.len(), dest.len(), T::width()) as int;
    le_stream(src).take(filled) + dest.skip(filled)
}

/// The stream of `n` words has `n` times the width in bytes.
pub proof fn lemma_le_stream_len<T: Observable>(words: Seq<T>)
    ensures
        le_stream(words).len() == words.len() * T::width(),
    decreases words.len(),
{
    if words.len() > 0 {
        lemma_le_stream_len(words.drop_last());
        words.last().lemma_form_width();
        assert((words.len() - 1) * T::width() + T::width() == words.len() * T::width())
            by (nonlinear_arith);
    }
}

/// The chunk of the stream at position `k` is the byte form of word `k`.
pub proof fn lemma_le_stream_chunk<T: Observable>(words: Seq<T>, k: int)
    requires
        0 <= k < words.len(),
    ensures
        (k + 1) * T::width() == k * T::width() + T::width(),
        k * T::width() + T::width() <= le_stream(words).len(),
        le_stream(words).subrange(k * T::width(), k * T::width() + T::width())
            == words[k].le_bytes(),
    decreases words.len(),
{
    let width = T::width();
    let shorter = words.drop_last();
    lemma_le_stream_len(shorter);
    words.last().lemma_form_width();
    assert((k + 1) * width == k * width + width) by (nonlinear_arith);
    if k < words.len() - 1 {
        lemma_le_stream_chunk(shorter, k);
    }
}

/// Writes the first `n` bytes of the form of `word` to `dest`, from `at` on.
fn put_le_prefix<T: Observable>(word: T, dest: &mut [u8], at: usize, n: usize)
    requires
        n <= T::width(),
        at + n <= old(dest)@.len(),
    ensures
        final(dest)@ == old(dest)@.take(at as int) + word.le_bytes().take(n as int) + old(
            dest,
        )@.skip(at + n),
{
    proof {
        word.lemma_form_width();
        vstd::slice::axiom_spec_len(dest);
    }
    let mut j: usize = 0;
    while j < n
        invariant
            j <= n <= T::width(),
            at + n <= old(dest)@.len() <= usize::MAX,
            word.le_bytes().len() == T::width(),
            dest@ == old(dest)@.take(at as int) + word.le_bytes().take(j as int) + old(dest)@.skip(
                at + j,
            ),
        decreases n - j,
    {
        let byte: u8 = word.le_byte(j);
        dest[at + j] = byte;
        j += 1;
    }
}

/// Fills `dest` from `src`, word by word in little-endian order.
///
/// Returns how many words of `src` were read and how many bytes of `dest`
/// were written. Whole words are written as long as both a word and room
/// for it are left. If then a word is left and room that is too short for
/// it, the first bytes of that word fill the room. The bytes of `dest`
/// behind those written keep their values.
pub fn fill_via_chunks<T: Observable>(src: &[T], dest: &mut [u8]) -> (res: (usize, usize))
    ensures
        res.0 == words_consumed(src@.len(), old(dest)@.len(), T::width()),
        res.1 == bytes_filled(src@.len(), old(dest)@.len(), T::width()),
        final(dest)@ == chunk_filled(src@, old(dest)@),
        final(dest)@.len() == old(dest)@.len(),
        final(dest)@.take(res.1 as int) == le_stream(src@).take(res.1 as int),
        final(dest)@.skip(res.1 as int) == old(dest)@.skip(res.1 as int),
{
    let size: usize = T::size();
    let room: usize = dest.len();
    proof {
        T::lemma_width_positive();
    }
    let fit: usize = room / size;
    let num_chunks: usize = if src.len() <= fit {
        src.len()
    } else {
        fit
    };
    assert(num_chunks * size <= fit * size <= room) by (nonlinear_arith)
        requires
            num_chunks <= fit,
            fit == room / size,
            size > 0,
    ;
    let ghost stream = le_stream(src@);
    let mut k: usize = 0;
    let mut at: usize = 0;
    while k < num_chunks
        invariant
            k <= num_chunks <= src@.len(),
            size == T::width(),
            at == k * size,
            num_chunks * size <= room,
            dest@.len() == room == old(dest)@.len(),
            stream == le_stream(src@),
            dest@ == stream.take(at as int) + old(dest)@.skip(at as int),
        decreases num_chunks - k,
    {
        proof {
            lemma_le_stream_chunk(src@, k as int);
            assert((k + 1) * size <= num_chunks * size) by (nonlinear_arith)
                requires
                    k + 1 <= num_chunks,
            ;
        }
        put_le_prefix(src[k], dest, at, size);
        proof {
            let form = src@[k as int].le_bytes();
            assert(stream.take(at + size) == stream.take(at as int) + form);
        }
        k += 1;
        at += size;
    }
    if num_chunks < src.len() {
        let n: usize = room - at;
        if n > 0 {
            proof {
                lemma_le_stream_chunk(src@, k as int);
                assert(n == room % size) by (nonlinear_arith)
                    requires
                        k == room / size,
                        n == room - k * size,
                        size > 0,
                ;
            }
            put_le_prefix(src[num_chunks], dest, at, n);
            proof {
                let form = src@[k as int].le_bytes();
                assert(stream.take(at + n) == stream.take(at as int) + form.take(n as int));
            }
            return (num_chunks + 1, at + n);
        }
        assert(room % size == 0) by (nonlinear_arith)
            requires
                room == (room / size) * size,
                size > 0,
        ;
    }
    (num_chunks, at)
}

/// Fills `dest` from a buffer of 32-bit words, as [`fill_via_chunks`] does.
///
/// Returns the number of words read and the number of bytes written. The
/// words are only read: `src` is taken by mutable reference for callers
/// that hold it so.
pub fn fill_via_u32_chunks(src: &mut [u32], dest: &mut [u8]) -> (res: (usize, usize))
    ensures
        final(src)@ == old(src)@,
        res.0 == words_consumed(old(src)@.len(), old(dest)@.len(), 4),
        res.1 == bytes_filled(old(src)@.len(), old(dest)@.len(), 4),
        final(dest)@ == chunk_filled(old(src)@, old(dest)@),
        final(dest)@.len() == old(dest)@.len(),
        final(dest)@.take(res.1 as int) == le_stream(old(src)@).take(res.1 as int),
        final(dest)@.skip(res.1 as int) == old(dest)@.skip(res.1 as int),
{
    fill_via_chunks(src, dest)
}

/// Fills `dest` from a buffer of 64-bit words, as [`fill_via_chunks`] does.
///
/// Returns the number of words read and the number of bytes written. The
/// words are only read: `src` is taken by mutable reference for callers
/// that hold it so.
pub fn fill_via_u64_chunks(src: &mut [u64], dest: &mut [u8]) -> (res: (usize, usize))
    ensures
        final(src)@ == old(src)@,
        res.0 == words_consumed(old(src)@.len(), old(dest)@.len(), 8),
        res.1 == bytes_filled(old(src)@.len(), old(dest)@.len(), 8),
        final(dest)@ == chunk_filled(old(src)@, old(dest)@),
        final(dest)@.len() == old(dest)@.len(),
        final(dest)@.take(res.1 as int) == le_stream(old(src)@).take(res.1 as int),
        final(dest)@.skip(res.1 as int) == old(dest)@.skip(res.1 as int),
{
    fill_via_chunks(src, dest)
}

/// Produces a 32-bit word from the generator's bytes: it has a buffer of
/// four zero bytes filled and reads it in little-endian order.
pub fn next_u32_via_fill<R: FillBytes + ?Sized>(rng: &mut R) -> (word: u32)
    ensures
        old(rng).draws_bytes(seq![0u8, 0u8, 0u8, 0u8], u32_le_bytes(word), final(rng)),
{
    let mut buf: [u8; 4] = [0; 4];
    assert(buf@ == seq![0u8, 0u8, 0u8, 0u8]);
    rng.fill_bytes(&mut buf);
    u32_from_le_bytes(&buf)
}

/// Produces a 64-bit word from the generator's bytes: it has a buffer of
/// eight zero bytes filled and reads it in little-endian order.
pub fn next_u64_via_fill<R: FillBytes + ?Sized>(rng: &mut R) -> (word: u64)
    ensures
        old(rng).draws_bytes(
            seq![0u8, 0u8, 0u8, 0u8, 0u8, 0u8, 0u8, 0u8],
            u64_le_bytes(word),
            final(rng),
        ),
{
    let mut buf: [u8; 8] = [0; 8];
    assert(buf@ == seq![0u8, 0u8, 0u8, 0u8, 0u8, 0u8, 0u8, 0u8]);
    rng.fill_bytes(&mut buf);
    u64_from_le_bytes(&buf)
}

} // verus!
