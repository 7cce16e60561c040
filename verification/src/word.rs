//! Sixteen bytes in one 128-bit word, byte `i` in bits `8 * i` to
//! `8 * i + 7`, and the operations that treat all sixteen at once.

use vstd::prelude::*;
use crate::edge::swap_byte_nibbles;

verus! {

/// Byte `i` of a word, for `i` below sixteen.
pub open spec fn byte_of(w: u128, i: u128) -> u8 {
    ((w >> (i * 8)) & 0xff) as u8
}

/// The sixteen bytes of a word, lowest first.
pub open spec fn word_bytes(w: u128) -> Seq<u8> {
    Seq::new(16, |i: int| byte_of(w, i as u128))
}

/// Whether none of the sixteen bytes of a word is zero.
pub open spec fn no_zero_byte(w: u128) -> bool {
    forall|i: int| 0 <= i < 16 ==> #[trigger] word_bytes(w)[i] != 0
}

/// Operations on a value that holds sixteen bytes.
pub trait Ext: Sized {
    /// The sixteen bytes that the value holds.
    spec fn bytes(&self) -> Seq<u8>;

    /// The sixteen bytes, lowest first.
    fn as_bytes(&self) -> (r: [u8; 16])
        ensures
            r@ == self.bytes(),
    ;

    /// Whether every byte is other than zero.
    fn all_bytes_nonzero(self) -> (r: bool)
        ensures
            r == (forall|i: int| 0 <= i < 16 ==> #[trigger] self.bytes()[i] != 0),
    ;

    /// The value with the two nibbles of every byte exchanged.
    fn swap_nibbles(self) -> (r: Self)
        ensures
            r.bytes().len() == 16,
            forall|i: int|
                0 <= i < 16 ==> #[trigger] r.bytes()[i] == swap_byte_nibbles(self.bytes()[i]),
    ;

    /// The value with bytes `i` and `j` exchanged.
    fn swap(self, i: usize, j: usize) -> (r: Self)
        requires
            i < 16,
            j < 16,
        ensures
            r.bytes() == self.bytes().update(i as int, self.bytes()[j as int]).update(
                j as int,
                self.bytes()[i as int],
            ),
    ;
}

proof fn lemma_zero_byte_test(w: u128, d: u128)
    by (bit_vector)
    requires
        w >= 0x01010101010101010101010101010101u128 ==> d == w
            - 0x01010101010101010101010101010101u128,
        w < 0x01010101010101010101010101010101u128 ==> d == w
            + 0xfefefefefefefefefefefefefefefeffu128,
    ensures
        ((d & !w & 0x80808080808080808080808080808080u128) == 0) <==> (byte_of(w, 0) != 0
            && byte_of(w, 1) != 0 && byte_of(w, 2) != 0 && byte_of(w, 3) != 0 && byte_of(w, 4)
            != 0 && byte_of(w, 5) != 0 && byte_of(w, 6) != 0 && byte_of(w, 7) != 0 && byte_of(
            w,
            8,
        ) != 0 && byte_of(w, 9) != 0 && byte_of(w, 10) != 0 && byte_of(w, 11) != 0 && byte_of(
            w,
            12,
        ) != 0 && byte_of(w, 13) != 0 && byte_of(w, 14) != 0 && byte_of(w, 15) != 0),
{
}

proof fn lemma_nibble_swap_bytes(w: u128, i: u128)
    by (bit_vector)
    requires
        i < 16,
    ensures
        byte_of(
            ((w >> 4) & 0x0f0f0f0f0f0f0f0f0f0f0f0f0f0f0f0fu128) | ((w << 4)
                & 0xf0f0f0f0f0f0f0f0f0f0f0f0f0f0f0f0u128),
            i,
        ) == swap_byte_nibbles(byte_of(w, i)),
{
}

proof fn lemma_byte_swap_bytes(w: u128, i: u128, j: u128, k: u128)
    by (bit_vector)
    requires
        i < 16,
        j < 16,
        k < 16,
    ensures
        byte_of(exchanged(w, i, j), k) == if k == j {
            byte_of(w, i)
        } else if k == i {
            byte_of(w, j)
        } else {
            byte_of(w, k)
        },
{
}

/// The word with bytes `i` and `j` exchanged, by shifts and masks.
pub open spec fn exchanged(w: u128, i: u128, j: u128) -> u128 {
    let i_byte = (w >> (i * 8)) & 0xff;
    let j_byte = (w >> (j * 8)) & 0xff;
    let j_to_i = (w & !(0xffu128 << (i * 8))) | (j_byte << (i * 8));
    (j_to_i & !(0xffu128 << (j * 8))) | (i_byte << (j * 8))
}

impl Ext for u128 {
    open spec fn bytes(&self) -> Seq<u8> {
        word_bytes(*self)
    }

    fn as_bytes(&self) -> (r: [u8; 16]) {
        let w: u128 = *self;
        let mut r: [u8; 16] = [0, 0, 0, 0, 0, 0, 0, 0, 0, 0, 0, 0, 0, 0, 0, 0];
        let mut i: usize = 0;
        while i < 16
            invariant
                i <= 16,
                forall|k: int| 0 <= k < i ==> #[trigger] r[k] == byte_of(w, k as u128),
            decreases 16 - i,
        {
            let shift: u128 = i as u128 * 8;
            r[i] = ((w >> shift) & 0xff) as u8;
            i = i + 1;
        }
        assert(r@ =~= word_bytes(w));
        r
    }

    fn all_bytes_nonzero(self) -> (r: bool) {
        let d: u128 = self.wrapping_sub(0x01010101010101010101010101010101);
        proof {
            lemma_zero_byte_test(self, d);
            lemma_sixteen_bytes(self);
            assert(self.bytes() == word_bytes(self));
            assert(no_zero_byte(self) == (forall|i: int|
                0 <= i < 16 ==> #[trigger] self.bytes()[i] != 0));
        }
        (d & !self & 0x80808080808080808080808080808080) == 0
    }

    fn swap_nibbles(self) -> (r: u128) {
        let high_to_low: u128 = (self >> 4) & 0x0f0f0f0f0f0f0f0f0f0f0f0f0f0f0f0f;
        let low_to_high: u128 = (self << 4) & 0xf0f0f0f0f0f0f0f0f0f0f0f0f0f0f0f0;
        proof {
            assert forall|i: int| 0 <= i < 16 implies #[trigger] word_bytes(
                high_to_low | low_to_high,
            )[i] == swap_byte_nibbles(word_bytes(self)[i]) by {
                lemma_nibble_swap_bytes(self, i as u128);
            }
        }
        high_to_low | low_to_high
    }

    fn swap(self, i: usize, j: usize) -> (r: u128) {
        let si: u128 = i as u128 * 8;
        let sj: u128 = j as u128 * 8;
        let i_byte: u128 = (self >> si) & 0xff;
        let j_byte: u128 = (self >> sj) & 0xff;
        let j_to_i: u128 = (self & !(0xffu128 << si)) | (j_byte << si);
        let i_to_j: u128 = (j_to_i & !(0xffu128 << sj)) | (i_byte << sj);
        proof {
            assert(i_to_j == exchanged(self, i as u128, j as u128));
            assert forall|k: int| 0 <= k < 16 implies #[trigger] word_bytes(i_to_j)[k]
                == word_bytes(self).update(i as int, word_bytes(self)[j as int]).update(
                j as int,
                word_bytes(self)[i as int],
            )[k] by {
                lemma_byte_swap_bytes(self, i as u128, j as u128, k as u128);
            }
            assert(word_bytes(i_to_j) =~= word_bytes(self).update(
                i as int,
                word_bytes(self)[j as int],
            ).update(j as int, word_bytes(self)[i as int]));
        }
        i_to_j
    }
}

/// All sixteen bytes hold what each of them holds.
proof fn lemma_sixteen_bytes(w: u128)
    ensures
        no_zero_byte(w) <==> (byte_of(w, 0) != 0 && byte_of(w, 1) != 0 && byte_of(w, 2) != 0
            && byte_of(w, 3) != 0 && byte_of(w, 4) != 0 && byte_of(w, 5) != 0 && byte_of(w, 6)
            != 0 && byte_of(w, 7) != 0 && byte_of(w, 8) != 0 && byte_of(w, 9) != 0 && byte_of(
            w,
            10,
        ) != 0 && byte_of(w, 11) != 0 && byte_of(w, 12) != 0 && byte_of(w, 13) != 0 && byte_of(
            w,
            14,
        ) != 0 && byte_of(w, 15) != 0),
{
    lemma_byte_terms(w);
}

proof fn lemma_byte_terms(w: u128)
    ensures
        word_bytes(w)[0] == byte_of(w, 0),
        word_bytes(w)[1] == byte_of(w, 1),
        word_bytes(w)[2] == byte_of(w, 2),
        word_bytes(w)[3] == byte_of(w, 3),
        word_bytes(w)[4] == byte_of(w, 4),
        word_bytes(w)[5] == byte_of(w, 5),
        word_bytes(w)[6] == byte_of(w, 6),
        word_bytes(w)[7] == byte_of(w, 7),
        word_bytes(w)[8] == byte_of(w, 8),
        word_bytes(w)[9] == byte_of(w, 9),
        word_bytes(w)[10] == byte_of(w, 10),
        word_bytes(w)[11] == byte_of(w, 11),
        word_bytes(w)[12] == byte_of(w, 12),
        word_bytes(w)[13] == byte_of(w, 13),
        word_bytes(w)[14] == byte_of(w, 14),
        word_bytes(w)[15] == byte_of(w, 15),
{
}

/// The word with the two nibbles of every byte exchanged.
pub open spec fn swapped_word(w: u128) -> u128 {
    ((w >> 4) & 0x0f0f0f0f0f0f0f0f0f0f0f0f0f0f0f0fu128) | ((w << 4)
        & 0xf0f0f0f0f0f0f0f0f0f0f0f0f0f0f0f0u128)
}

/// A word whose bytes are those of `w` with their nibbles exchanged is the
/// nibble-exchanged `w`.
pub proof fn lemma_swapped_word(w: u128, r: u128)
    requires
        forall|i: int|
            0 <= i < 16 ==> #[trigger] word_bytes(r)[i] == swap_byte_nibbles(word_bytes(w)[i]),
    ensures
        r == swapped_word(w),
{
    assert forall|i: int| 0 <= i < 16 implies word_bytes(r)[i] == #[trigger] word_bytes(
        swapped_word(w),
    )[i] by {
        lemma_nibble_swap_bytes(w, i as u128);
    }
    assert(word_bytes(r) =~= word_bytes(swapped_word(w)));
    lemma_word_is_its_bytes(r, swapped_word(w));
}

/// Every byte of the word of all ones is all ones.
pub proof fn lemma_all_ones_bytes(w: u128, i: u128)
    by (bit_vector)
    requires
        w == 0xffffffffffffffffffffffffffffffffu128,
        i < 16,
    ensures
        byte_of(w, i) == 0xff,
{
}

/// A word is its sixteen bytes and nothing more.
pub proof fn lemma_word_is_its_bytes(v: u128, w: u128)
    requires
        word_bytes(v) == word_bytes(w),
    ensures
        v == w,
{
    lemma_byte_terms(v);
    lemma_byte_terms(w);
    lemma_equal_bytes(v, w);
}

proof fn lemma_equal_bytes(v: u128, w: u128)
    by (bit_vector)
    requires
        byte_of(v, 0) == byte_of(w, 0),
        byte_of(v, 1) == byte_of(w, 1),
        byte_of(v, 2) == byte_of(w, 2),
        byte_of(v, 3) == byte_of(w, 3),
        byte_of(v, 4) == byte_of(w, 4),
        byte_of(v, 5) == byte_of(w, 5),
        byte_of(v, 6) == byte_of(w, 6),
        byte_of(v, 7) == byte_of(w, 7),
        byte_of(v, 8) == byte_of(w, 8),
        byte_of(v, 9) == byte_of(w, 9),
        byte_of(v, 10) == byte_of(w, 10),
        byte_of(v, 11) == byte_of(w, 11),
        byte_of(v, 12) == byte_of(w, 12),
        byte_of(v, 13) == byte_of(w, 13),
        byte_of(v, 14) == byte_of(w, 14),
        byte_of(v, 15) == byte_of(w, 15),
    ensures
        v == w,
{
}

} // verus!
