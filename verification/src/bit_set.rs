//! Bit sets keyed by graph node: a fixed number of bits for every node, held
//! in one flat array of 32-bit words, with the slices and buffers that the
//! dataflow passes move rows through.

use crate::graph::Graph;
use core::marker::PhantomData;
use vstd::prelude::*;

verus! {

/// Bit `b` of the word `w`; false for positions outside the word.
pub open spec fn bit_at(w: u32, b: int) -> bool {
    0 <= b < 32 && (w >> (b as u32)) & 1u32 == 1u32
}

/// Number of words that hold `bits` bits.
pub open spec fn words_for(bits: nat) -> nat {
    if bits % 32 != 0 {
        bits / 32 + 1
    } else {
        bits / 32
    }
}

/// How far the words of `s` are from being all ones. Setting a bit in any
/// word makes it strictly smaller, which bounds every fixed-point loop over
/// a bit set.
pub open spec fn slack_of(s: Seq<u32>) -> nat
    decreases s.len(),
{
    if s.len() == 0 {
        0
    } else {
        slack_of(s.drop_last()) + (u32::MAX - s.last()) as nat
    }
}

/// Replacing one word lowers the slack by as much as the word grows.
pub proof fn lemma_slack_update(s: Seq<u32>, i: int, w: u32)
    requires
        0 <= i < s.len(),
    ensures
        slack_of(s.update(i, w)) + w == slack_of(s) + s[i],
    decreases s.len(),
{
    let t = s.update(i, w);
    if i == s.len() - 1 {
        assert(t.drop_last() =~= s.drop_last());
    } else {
        lemma_slack_update(s.drop_last(), i, w);
        assert(t.drop_last() =~= s.drop_last().update(i, w));
    }
}

proof fn lemma_nonzero_has_bit(x: u32)
    requires
        x != 0,
    ensures
        exists|c: int| 0 <= c < 32 && bit_at(x, c),
{
    assert(x != 0 ==> ((x >> 0u32) & 1u32 == 1u32 || (x >> 1u32) & 1u32 == 1u32 || (x >> 2u32) & 1u32 == 1u32 || (x >> 3u32) & 1u32 == 1u32 || (x >> 4u32) & 1u32 == 1u32 || (x >> 5u32) & 1u32 == 1u32 || (x >> 6u32) & 1u32 == 1u32 || (x >> 7u32) & 1u32 == 1u32 || (x >> 8u32) & 1u32 == 1u32 || (x >> 9u32) & 1u32 == 1u32 || (x >> 10u32) & 1u32 == 1u32 || (x >> 11u32) & 1u32 == 1u32 || (x >> 12u32) & 1u32 == 1u32 || (x >> 13u32) & 1u32 == 1u32 || (x >> 14u32) & 1u32 == 1u32 || (x >> 15u32) & 1u32 == 1u32 || (x >> 16u32) & 1u32 == 1u32 || (x >> 17u32) & 1u32 == 1u32 || (x >> 18u32) & 1u32 == 1u32 || (x >> 19u32) & 1u32 == 1u32 || (x >> 20u32) & 1u32 == 1u32 || (x >> 21u32) & 1u32 == 1u32 || (x >> 22u32) & 1u32 == 1u32 || (x >> 23u32) & 1u32 == 1u32 || (x >> 24u32) & 1u32 == 1u32 || (x >> 25u32) & 1u32 == 1u32 || (x >> 26u32) & 1u32 == 1u32 || (x >> 27u32) & 1u32 == 1u32 || (x >> 28u32) & 1u32 == 1u32 || (x >> 29u32) & 1u32 == 1u32 || (x >> 30u32) & 1u32 == 1u32 || (x >> 31u32) & 1u32 == 1u32)) by (bit_vector);
        if (x >> 0u32) & 1u32 == 1u32 {
            assert(bit_at(x, 0));
        } else if (x >> 1u32) & 1u32 == 1u32 {
            assert(bit_at(x, 1));
        } else if (x >> 2u32) & 1u32 == 1u32 {
            assert(bit_at(x, 2));
        } else if (x >> 3u32) & 1u32 == 1u32 {
            assert(bit_at(x, 3));
        } else if (x >> 4u32) & 1u32 == 1u32 {
            assert(bit_at(x, 4));
        } else if (x >> 5u32) & 1u32 == 1u32 {
            assert(bit_at(x, 5));
        } else if (x >> 6u32) & 1u32 == 1u32 {
            assert(bit_at(x, 6));
        } else if (x >> 7u32) & 1u32 == 1u32 {
            assert(bit_at(x, 7));
        } else if (x >> 8u32) & 1u32 == 1u32 {
            assert(bit_at(x, 8));
        } else if (x >> 9u32) & 1u32 == 1u32 {
            assert(bit_at(x, 9));
        } else if (x >> 10u32) & 1u32 == 1u32 {
            assert(bit_at(x, 10));
        } else if (x >> 11u32) & 1u32 == 1u32 {
            assert(bit_at(x, 11));
        } else if (x >> 12u32) & 1u32 == 1u32 {
            assert(bit_at(x, 12));
        } else if (x >> 13u32) & 1u32 == 1u32 {
            assert(bit_at(x, 13));
        } else if (x >> 14u32) & 1u32 == 1u32 {
            assert(bit_at(x, 14));
        } else if (x >> 15u32) & 1u32 == 1u32 {
            assert(bit_at(x, 15));
        } else if (x >> 16u32) & 1u32 == 1u32 {
            assert(bit_at(x, 16));
        } else if (x >> 17u32) & 1u32 == 1u32 {
            assert(bit_at(x, 17));
        } else if (x >> 18u32) & 1u32 == 1u32 {
            assert(bit_at(x, 18));
        } else if (x >> 19u32) & 1u32 == 1u32 {
            assert(bit_at(x, 19));
        } else if (x >> 20u32) & 1u32 == 1u32 {
            assert(bit_at(x, 20));
        } else if (x >> 21u32) & 1u32 == 1u32 {
            assert(bit_at(x, 21));
        } else if (x >> 22u32) & 1u32 == 1u32 {
            assert(bit_at(x, 22));
        } else if (x >> 23u32) & 1u32 == 1u32 {
            assert(bit_at(x, 23));
        } else if (x >> 24u32) & 1u32 == 1u32 {
            assert(bit_at(x, 24));
        } else if (x >> 25u32) & 1u32 == 1u32 {
            assert(bit_at(x, 25));
        } else if (x >> 26u32) & 1u32 == 1u32 {
            assert(bit_at(x, 26));
        } else if (x >> 27u32) & 1u32 == 1u32 {
            assert(bit_at(x, 27));
        } else if (x >> 28u32) & 1u32 == 1u32 {
            assert(bit_at(x, 28));
        } else if (x >> 29u32) & 1u32 == 1u32 {
            assert(bit_at(x, 29));
        } else if (x >> 30u32) & 1u32 == 1u32 {
            assert(bit_at(x, 30));
        } else if (x >> 31u32) & 1u32 == 1u32 {
            assert(bit_at(x, 31));
        }
}

proof fn lemma_bit_or(a: u32, b: u32, c: int)
    ensures
        bit_at(a | b, c) == (bit_at(a, c) || bit_at(b, c)),
{
    if 0 <= c < 32 {
        let k = c as u32;
        assert(((a | b) >> k) & 1u32 == 1u32 <==> ((a >> k) & 1u32 == 1u32 || (b >> k) & 1u32
            == 1u32)) by (bit_vector)
            requires
                k < 32,
        ;
    }
}

proof fn lemma_bit_zero(c: int)
    ensures
        !bit_at(0u32, c),
{
    if 0 <= c < 32 {
        let k = c as u32;
        assert((0u32 >> k) & 1u32 == 0u32) by (bit_vector)
            requires
                k < 32,
        ;
    }
}

proof fn lemma_bit_set(w: u32, b: u32, c: int)
    requires
        b < 32,
    ensures
        bit_at(w | (1u32 << b), c) == (c == b || bit_at(w, c)),
        (w | (1u32 << b)) != w <==> !bit_at(w, b as int),
        (w | (1u32 << b)) >= w,
{
    if 0 <= c < 32 {
        let k = c as u32;
        assert(((w | (1u32 << b)) >> k) & 1u32 == 1u32 <==> (k == b || (w >> k) & 1u32 == 1u32))
            by (bit_vector)
            requires
                k < 32,
                b < 32,
        ;
    }
    assert((w | (1u32 << b)) != w <==> !((w >> b) & 1u32 == 1u32)) by (bit_vector)
        requires
            b < 32,
    ;
    assert((w | (1u32 << b)) >= w) by (bit_vector);
}

proof fn lemma_bit_clear(w: u32, b: u32, c: int)
    requires
        b < 32,
    ensures
        bit_at(w & !(1u32 << b), c) == (c != b && bit_at(w, c)),
        (w & !(1u32 << b)) != w <==> bit_at(w, b as int),
{
    if 0 <= c < 32 {
        let k = c as u32;
        assert(((w & !(1u32 << b)) >> k) & 1u32 == 1u32 <==> (k != b && (w >> k) & 1u32 == 1u32))
            by (bit_vector)
            requires
                k < 32,
                b < 32,
        ;
    }
    assert((w & !(1u32 << b)) != w <==> ((w >> b) & 1u32 == 1u32)) by (bit_vector)
        requires
            b < 32,
    ;
}

proof fn lemma_bit_test(w: u32, b: u32)
    requires
        b < 32,
    ensures
        (w & (1u32 << b)) != 0 <==> bit_at(w, b as int),
{
    assert((w & (1u32 << b)) != 0 <==> ((w >> b) & 1u32 == 1u32)) by (bit_vector)
        requires
            b < 32,
    ;
}

/// Or-ing `b` into `a` changes `a` exactly when `b` has a bit that `a`
/// lacks, and never lowers its value.
proof fn lemma_or_changed(a: u32, b: u32)
    ensures
        (a | b) != a <==> exists|c: int| 0 <= c < 32 && bit_at(b, c) && !bit_at(a, c),
        (a | b) >= a,
{
    let x = b & !a;
    assert((a | b) != a <==> (b & !a) != 0) by (bit_vector);
    assert((a | b) >= a) by (bit_vector);
    assert forall|c: int| 0 <= c < 32 implies (bit_at(x, c) <==> bit_at(b, c) && !bit_at(a, c)) by {
        let k = c as u32;
        assert(((b & !a) >> k) & 1u32 == 1u32 <==> ((b >> k) & 1u32 == 1u32 && !((a >> k) & 1u32
            == 1u32))) by (bit_vector)
            requires
                k < 32,
        ;
    }
    if x != 0 {
        lemma_nonzero_has_bit(x);
        let c = choose|c: int| 0 <= c < 32 && bit_at(x, c);
        assert(bit_at(b, c) && !bit_at(a, c));
    } else {
        assert forall|c: int| 0 <= c < 32 implies !(bit_at(b, c) && !bit_at(a, c)) by {
            lemma_bit_zero(c);
        }
    }
}

proof fn lemma_row_index(node: int, nodes: int, w: int, wpn: int)
    requires
        0 <= node < nodes,
        0 <= w < wpn,
    ensures
        0 <= node * wpn + w < nodes * wpn,
        node * wpn + wpn <= nodes * wpn,
        0 <= node * wpn,
{
    assert(node * wpn + wpn <= nodes * wpn) by (nonlinear_arith)
        requires
            0 <= node < nodes,
            0 <= wpn,
    ;
    assert(0 <= node * wpn) by (nonlinear_arith)
        requires
            0 <= node,
            0 <= wpn,
    ;
}

proof fn lemma_rows_apart(a: int, b: int, i: int, j: int, wpn: int)
    requires
        0 <= a,
        0 <= b,
        a != b,
        0 <= i < wpn,
        0 <= j < wpn,
    ensures
        a * wpn + i != b * wpn + j,
{
    if a < b {
        assert(a * wpn + wpn <= b * wpn) by (nonlinear_arith)
            requires
                0 <= a < b,
                0 <= wpn,
        ;
    } else {
        assert(b * wpn + wpn <= a * wpn) by (nonlinear_arith)
            requires
                0 <= b < a,
                0 <= wpn,
        ;
    }
}

/// Splits a bit index into the index of its word and its position there.
pub fn words_bits(x: usize) -> (r: (usize, usize))
    ensures
        r.0 == x / 32,
        r.1 == x % 32,
{
    (x / 32, x % 32)
}

/// Number of words needed for `x` bits.
pub fn words(x: usize) -> (r: usize)
    ensures
        r == words_for(x as nat),
{
    let (w, b) = words_bits(x);
    if b != 0 {
        w + 1
    } else {
        w
    }
}

/// Whether the words of a bit set of `bits` bits for each of `nodes` nodes
/// can be counted in a `usize`.
pub fn fits(nodes: usize, bits: usize) -> (r: bool)
    ensures
        r == (nodes * words_for(bits as nat) <= usize::MAX),
{
    words(bits).checked_mul(nodes).is_some()
}

/// A borrowed row of bits.
#[derive(Clone, Copy)]
pub struct BitSlice<'a> {
    words: &'a Vec<u32>,
    start: usize,
    len: usize,
}

impl<'a> BitSlice<'a> {
    pub closed spec fn wf(&self) -> bool {
        self.start + self.len <= self.words.len()
    }

    /// Number of words in the row.
    pub closed spec fn word_count(&self) -> nat {
        self.len as nat
    }

    /// Number of bit positions in the row.
    pub open spec fn capacity(&self) -> nat {
        32 * self.word_count()
    }

    pub closed spec fn word(&self, k: int) -> u32 {
        self.words[self.start + k]
    }

    /// Whether bit `bit` is set; false outside the row.
    pub open spec fn has(&self, bit: int) -> bool {
        0 <= bit < self.capacity() && bit_at(self.word(bit / 32), bit % 32)
    }

    /// Copies the row into a buffer of its own.
    pub fn to_buf(self) -> (buf: BitBuf)
        requires
            self.wf(),
        ensures
            buf.word_count() == self.word_count(),
            forall|bit: int| buf.has(bit) == self.has(bit),
    {
        let mut words: Vec<u32> = Vec::new();
        let mut k: usize = 0;
        while k < self.len
            invariant
                self.wf(),
                k <= self.len,
                words.len() == k,
                forall|j: int| 0 <= j < k ==> words[j] == self.word(j),
            decreases self.len - k,
        {
            words.push(self.words[self.start + k]);
            k += 1;
        }
        BitBuf { words }
    }

    pub fn get(self, index: usize) -> (r: bool)
        requires
            self.wf(),
            index < self.capacity(),
        ensures
            r == self.has(index as int),
    {
        let (word, bit) = words_bits(index);
        let value = self.words[self.start + word];
        proof {
            lemma_bit_test(value, bit as u32);
        }
        (value & (1u32 << (bit as u32))) != 0
    }
}

/// An owned row of bits.
pub struct BitBuf {
    words: Vec<u32>,
}

impl BitBuf {
    /// Number of words in the buffer.
    pub closed spec fn word_count(&self) -> nat {
        self.words.len() as nat
    }

    /// Number of bit positions in the buffer.
    pub open spec fn capacity(&self) -> nat {
        32 * self.word_count()
    }

    pub closed spec fn word(&self, k: int) -> u32 {
        self.words[k]
    }

    /// Whether bit `bit` is set; false outside the buffer.
    pub open spec fn has(&self, bit: int) -> bool {
        0 <= bit < self.capacity() && bit_at(self.word(bit / 32), bit % 32)
    }

    pub fn as_slice(&self) -> (r: BitSlice<'_>)
        ensures
            r.wf(),
            r.word_count() == self.word_count(),
            forall|bit: int| r.has(bit) == self.has(bit),
    {
        BitSlice { words: &self.words, start: 0, len: self.words.len() }
    }

    pub fn get(&self, index: usize) -> (r: bool)
        requires
            index < self.capacity(),
        ensures
            r == self.has(index as int),
    {
        self.as_slice().get(index)
    }

    /// Sets bit `index`; tells whether it was clear before.
    pub fn set(&mut self, index: usize) -> (changed: bool)
        requires
            index < old(self).capacity(),
        ensures
            final(self).word_count() == old(self).word_count(),
            forall|bit: int| final(self).has(bit) == (bit == index || old(self).has(bit)),
            changed == !old(self).has(index as int),
    {
        self.mutate(index, true)
    }

    /// Clears bit `index`; tells whether it was set before.
    pub fn kill(&mut self, index: usize) -> (changed: bool)
        requires
            index < old(self).capacity(),
        ensures
            final(self).word_count() == old(self).word_count(),
            forall|bit: int| final(self).has(bit) == (bit != index && old(self).has(bit)),
            changed == old(self).has(index as int),
    {
        self.mutate(index, false)
    }

    fn mutate(&mut self, index: usize, value: bool) -> (changed: bool)
        requires
            index < old(self).capacity(),
        ensures
            final(self).word_count() == old(self).word_count(),
            forall|bit: int|
                final(self).has(bit) == (if bit == index {
                    value
                } else {
                    old(self).has(bit)
                }),
            changed == (old(self).has(index as int) != value),
    {
        let (word, bit) = words_bits(index);
        let old_value = self.words[word];
        let mask: u32 = 1u32 << (bit as u32);
        let new_value = if value {
            old_value | mask
        } else {
            old_value & !mask
        };
        self.words.set(word, new_value);
        proof {
            assert forall|b: int|
                final(self).has(b) == (if b == index {
                    value
                } else {
                    old(self).has(b)
                }) by {
                if 0 <= b < self.capacity() {
                    if b / 32 == word as int {
                        lemma_bit_set(old_value, bit as u32, b % 32);
                        lemma_bit_clear(old_value, bit as u32, b % 32);
                    }
                }
            }
            lemma_bit_set(old_value, bit as u32, bit as int);
            lemma_bit_clear(old_value, bit as u32, bit as int);
        }
        old_value != new_value
    }

    /// Or-s `bits` into the buffer, word by word as far as both reach; tells
    /// whether a bit was added.
    pub fn set_from(&mut self, bits: BitSlice) -> (changed: bool)
        requires
            bits.wf(),
        ensures
            final(self).word_count() == old(self).word_count(),
            forall|bit: int|
                final(self).has(bit) == (old(self).has(bit) || (bit < old(self).capacity()
                    && bits.has(bit))),
            changed == exists|bit: int|
                bit < old(self).capacity() && bits.has(bit) && !old(self).has(bit),
    {
        let (changed, reach) = set_from(&mut self.words, 0, bits);
        proof {
            lemma_or_rows(old(self).words@, self.words@, 0, bits);
            if changed {
                let (k, c) = choose|k: int, c: int|
                    0 <= k < reach && 0 <= c < 32 && bit_at(bits.word(k - 0), c)
                        && !#[trigger] bit_at(old(self).words[k], c);
                let b = k * 32 + c;
                assert(b / 32 == k && b % 32 == c);
                assert(b < old(self).capacity() && bits.has(b) && !old(self).has(b));
            }
            if exists|bit: int| bit < old(self).capacity() && bits.has(bit) && !old(self).has(bit) {
                let b = choose|bit: int|
                    bit < old(self).capacity() && bits.has(bit) && !old(self).has(bit);
                let k = b / 32;
                assert(bit_at(bits.word(k - 0), b % 32) && !bit_at(old(self).words[k], b % 32));
            }
        }
        changed
    }

    /// Clears every bit.
    pub fn clear(&mut self)
        ensures
            final(self).word_count() == old(self).word_count(),
            forall|bit: int| !final(self).has(bit),
    {
        let mut k: usize = 0;
        while k < self.words.len()
            invariant
                self.words.len() == old(self).words.len(),
                k <= self.words.len(),
                forall|j: int| 0 <= j < k ==> self.words[j] == 0u32,
            decreases self.words.len() - k,
        {
            self.words.set(k, 0u32);
            k += 1;
        }
        proof {
            assert forall|bit: int| !final(self).has(bit) by {
                lemma_bit_zero(bit % 32);
            }
        }
    }
}

/// What or-ing the row `bits` into `before`, from word `start` on and as far
/// as both reach, leaves in `after`.
spec fn or_rows(before: Seq<u32>, after: Seq<u32>, start: int, bits: BitSlice, upto: int) -> bool {
    &&& after.len() == before.len()
    &&& forall|k: int|
        0 <= k < before.len() ==> #[trigger] after[k] == (if start <= k < start + upto {
            before[k] | bits.word(k - start)
        } else {
            before[k]
        })
}

spec fn or_reach(len: int, start: int, bits: BitSlice) -> int {
    if len - start < bits.word_count() {
        len - start
    } else {
        bits.word_count() as int
    }
}

proof fn lemma_or_rows(before: Seq<u32>, after: Seq<u32>, start: int, bits: BitSlice)
    requires
        0 <= start <= before.len(),
        or_rows(before, after, start, bits, or_reach(before.len() as int, start, bits)),
    ensures
        forall|k: int, c: int|
            0 <= k < before.len() && 0 <= c < 32 ==> (#[trigger] bit_at(after[k], c) == (bit_at(
                before[k],
                c,
            ) || (start <= k && bits.has((k - start) * 32 + c)))),
{
    let reach = or_reach(before.len() as int, start, bits);
    assert forall|k: int, c: int| 0 <= k < before.len() && 0 <= c < 32 implies (#[trigger] bit_at(
        after[k],
        c,
    ) == (bit_at(before[k], c) || (start <= k && bits.has((k - start) * 32 + c)))) by {
        let b = (k - start) * 32 + c;
        if start <= k {
            assert(b / 32 == k - start && b % 32 == c);
        }
        if start <= k < start + reach {
            lemma_bit_or(before[k], bits.word(k - start), c);
        }
    }
}

/// Or-s `bits` into `words`, from word `start` on and as far as both reach.
/// Returns whether a word changed, and how many words were visited.
fn set_from(words: &mut Vec<u32>, start: usize, bits: BitSlice) -> (r: (bool, usize))
    requires
        bits.wf(),
        start <= old(words).len(),
    ensures
        r.1 == or_reach(old(words).len() as int, start as int, bits),
        or_rows(old(words)@, final(words)@, start as int, bits, r.1 as int),
        r.0 == exists|k: int, c: int|
            start <= k < start + r.1 && 0 <= c < 32 && bit_at(bits.word(k - start), c) && !#[trigger] bit_at(
                old(words)[k],
                c,
            ),
        slack_of(final(words)@) <= slack_of(old(words)@),
        r.0 ==> slack_of(final(words)@) < slack_of(old(words)@),
{
    let mut changed = false;
    let mut k: usize = 0;
    let reach = if words.len() - start < bits.len {
        words.len() - start
    } else {
        bits.len
    };
    while k < reach
        invariant
            bits.wf(),
            start + reach <= words.len(),
            reach <= bits.len,
            k <= reach,
            or_rows(old(words)@, words@, start as int, bits, k as int),
            changed == exists|j: int, c: int|
                start <= j < start + k && 0 <= c < 32 && bit_at(bits.word(j - start), c) && !#[trigger] bit_at(
                    old(words)[j],
                    c,
                ),
            slack_of(words@) <= slack_of(old(words)@),
            changed ==> slack_of(words@) < slack_of(old(words)@),
        decreases reach - k,
    {
        let old_value = words[start + k];
        let new_value = old_value | bits.words[bits.start + k];
        let ghost prev = words@;
        words.set(start + k, new_value);
        proof {
            lemma_or_changed(old_value, bits.word(k as int));
            lemma_slack_update(prev, (start + k) as int, new_value);
            if old_value != new_value {
                let c = choose|c: int|
                    0 <= c < 32 && bit_at(bits.word(k as int), c) && !bit_at(old_value, c);
                assert(bit_at(bits.word((start + k) - start), c) && !bit_at(
                    old(words)[(start + k) as int],
                    c,
                ));
            }
        }
        changed = changed || old_value != new_value;
        k += 1;
    }
    (changed, reach)
}

/// A fixed number of bits for every node of a graph.
pub struct BitSet<G: Graph> {
    num_nodes: usize,
    bits_per_node: usize,
    words: Vec<u32>,
    graph: PhantomData<G>,
}

impl<G: Graph> BitSet<G> {
    pub closed spec fn wf(&self) -> bool {
        self.words.len() == self.num_nodes * words_for(self.bits_per_node as nat)
    }

    /// Number of rows.
    pub closed spec fn nodes(&self) -> nat {
        self.num_nodes as nat
    }

    /// Number of bits that were asked for in every row.
    pub closed spec fn width(&self) -> nat {
        self.bits_per_node as nat
    }

    /// Number of bit positions that a row holds: `width()` rounded up to
    /// whole words.
    pub open spec fn capacity(&self) -> nat {
        32 * words_for(self.width())
    }

    /// Whether bit `bit` of the row of `node` is set.
    pub closed spec fn has(&self, node: int, bit: int) -> bool {
        &&& 0 <= node < self.num_nodes
        &&& 0 <= bit < 32 * words_for(self.bits_per_node as nat)
        &&& bit_at(self.words[node * words_for(self.bits_per_node as nat) + bit / 32], bit % 32)
    }

    /// A measure that gets strictly smaller whenever a bit is added.
    pub closed spec fn slack(&self) -> nat {
        slack_of(self.words@)
    }

    /// `has` holds only inside the set's rows.
    pub proof fn lemma_has_in_range(&self, node: int, bit: int)
        requires
            self.has(node, bit),
        ensures
            0 <= node < self.nodes(),
            0 <= bit < self.capacity(),
    {
    }

    /// A set with `bits_per_node` bits for every node of `graph`, all clear.
    pub fn new(graph: &G, bits_per_node: usize) -> (r: Self)
        requires
            graph.wf(),
            graph.node_count() * words_for(bits_per_node as nat) <= usize::MAX,
        ensures
            r.wf(),
            r.nodes() == graph.node_count(),
            r.width() == bits_per_node,
            forall|node: int, bit: int| !r.has(node, bit),
    {
        let num_nodes = graph.num_nodes();
        let words_per_node = words(bits_per_node);
        assert(words_per_node * num_nodes == num_nodes * words_per_node) by (nonlinear_arith);
        let total = words_per_node * num_nodes;
        let mut words: Vec<u32> = Vec::new();
        let mut k: usize = 0;
        while k < total
            invariant
                k <= total,
                words.len() == k,
                forall|j: int| 0 <= j < k ==> words[j] == 0u32,
            decreases total - k,
        {
            words.push(0u32);
            k += 1;
        }
        let r = BitSet { num_nodes, bits_per_node, words, graph: PhantomData };
        proof {
            assert(words_per_node * num_nodes == num_nodes * words_per_node) by (nonlinear_arith);
            assert forall|node: int, bit: int| !r.has(node, bit) by {
                if 0 <= node < num_nodes && 0 <= bit < 32 * words_per_node {
                    lemma_row_index(node, num_nodes as int, bit / 32, words_per_node as int);
                    lemma_bit_zero(bit % 32);
                }
            }
        }
        r
    }

    /// Index of the first word of the row of `node`.
    fn index(&self, node: usize) -> (r: usize)
        requires
            self.wf(),
            node < self.nodes(),
        ensures
            r == node * words_for(self.width()),
            r + words_for(self.width()) <= self.words.len(),
    {
        proof {
            lemma_row_index(
                node as int,
                self.num_nodes as int,
                0,
                words_for(self.width()) as int + 1,
            );
            assert(node * (words_for(self.width()) + 1) == node * words_for(self.width()) + node)
                by (nonlinear_arith);
            assert(node * words_for(self.width()) + words_for(self.width()) <= self.num_nodes
                * words_for(self.width())) by (nonlinear_arith)
                requires
                    node < self.num_nodes,
            ;
        }
        node * words(self.bits_per_node)
    }

    /// An all-clear buffer as wide as a row.
    pub fn empty_buf(&self) -> (buf: BitBuf)
        ensures
            buf.capacity() == self.capacity(),
            forall|bit: int| !buf.has(bit),
    {
        let count = words(self.bits_per_node);
        let mut words: Vec<u32> = Vec::new();
        let mut k: usize = 0;
        while k < count
            invariant
                k <= count,
                words.len() == k,
                forall|j: int| 0 <= j < k ==> words[j] == 0u32,
            decreases count - k,
        {
            words.push(0u32);
            k += 1;
        }
        let buf = BitBuf { words };
        proof {
            assert forall|bit: int| !buf.has(bit) by {
                lemma_bit_zero(bit % 32);
            }
        }
        buf
    }

    /// The row of `node`.
    pub fn bits(&self, node: usize) -> (r: BitSlice<'_>)
        requires
            self.wf(),
            node < self.nodes(),
        ensures
            r.wf(),
            r.capacity() == self.capacity(),
            forall|bit: int| r.has(bit) == self.has(node as int, bit),
    {
        let start = self.index(node);
        BitSlice { words: &self.words, start, len: words(self.bits_per_node) }
    }

    pub fn is_set(&self, node: usize, bit: usize) -> (r: bool)
        requires
            self.wf(),
            node < self.nodes(),
            bit < self.width(),
        ensures
            r == self.has(node as int, bit as int),
    {
        self.bits(node).get(bit)
    }

    /// Sets bit `bit` of the row of `node`; tells whether it was clear
    /// before.
    pub fn insert(&mut self, node: usize, bit: usize) -> (changed: bool)
        requires
            old(self).wf(),
            node < old(self).nodes(),
            bit < old(self).width(),
        ensures
            final(self).wf(),
            final(self).nodes() == old(self).nodes(),
            final(self).width() == old(self).width(),
            forall|n: int, b: int|
                final(self).has(n, b) == ((n == node && b == bit) || old(self).has(n, b)),
            changed == !old(self).has(node as int, bit as int),
            final(self).slack() <= old(self).slack(),
            changed ==> final(self).slack() < old(self).slack(),
    {
        let start = self.index(node);
        let (word, pos) = words_bits(bit);
        let old_value = self.words[start + word];
        let new_value = old_value | (1u32 << (pos as u32));
        let ghost prev = self.words@;
        self.words.set(start + word, new_value);
        proof {
            let wpn = words_for(self.width()) as int;
            lemma_slack_update(prev, (start + word) as int, new_value);
            lemma_bit_set(old_value, pos as u32, pos as int);
            assert forall|n: int, b: int|
                final(self).has(n, b) == ((n == node && b == bit) || old(self).has(n, b)) by {
                if 0 <= n < self.num_nodes && 0 <= b < 32 * wpn {
                    lemma_row_index(n, self.num_nodes as int, b / 32, wpn);
                    if n == node && b / 32 == word {
                        lemma_bit_set(old_value, pos as u32, b % 32);
                    } else if n != node {
                        lemma_rows_apart(n, node as int, b / 32, word as int, wpn);
                    }
                }
            }
        }
        old_value != new_value
    }

    /// Or-s `bits` into the row of `node`, as far as the row reaches; tells
    /// whether a bit was added.
    pub fn insert_bits_from_slice(&mut self, node: usize, bits: BitSlice) -> (changed: bool)
        requires
            old(self).wf(),
            node < old(self).nodes(),
            bits.wf(),
            bits.word_count() <= words_for(old(self).width()),
        ensures
            final(self).wf(),
            final(self).nodes() == old(self).nodes(),
            final(self).width() == old(self).width(),
            forall|n: int, b: int|
                final(self).has(n, b) == (old(self).has(n, b) || (n == node && bits.has(b))),
            changed == exists|b: int| bits.has(b) && !old(self).has(node as int, b),
            final(self).slack() <= old(self).slack(),
            changed ==> final(self).slack() < old(self).slack(),
    {
        let start = self.index(node);
        let (changed, reach) = set_from(&mut self.words, start, bits);
        proof {
            let wpn = words_for(self.width()) as int;
            assert(reach == bits.word_count());
            lemma_or_rows(old(self).words@, self.words@, start as int, bits);
            assert forall|n: int, b: int|
                final(self).has(n, b) == (old(self).has(n, b) || (n == node && bits.has(b))) by {
                if 0 <= n < self.num_nodes && 0 <= b < 32 * wpn {
                    lemma_row_index(n, self.num_nodes as int, b / 32, wpn);
                    let k = n * wpn + b / 32;
                    if n == node {
                        assert((k - start) * 32 + b % 32 == b);
                    } else if n < node {
                        lemma_row_index(n, node as int, b / 32, wpn);
                    } else {
                        lemma_row_index(node as int, n, 0, wpn + 1);
                        assert(node * (wpn + 1) == node * wpn + node) by (nonlinear_arith);
                        assert(n * wpn >= node * wpn + wpn) by (nonlinear_arith)
                            requires
                                n > node,
                                wpn >= 0,
                        ;
                        assert(!bits.has((k - start) * 32 + b % 32));
                    }
                }
            }
            if changed {
                let (k, c) = choose|k: int, c: int|
                    start <= k < start + reach && 0 <= c < 32 && bit_at(bits.word(k - start), c)
                        && !#[trigger] bit_at(old(self).words[k], c);
                let b = (k - start) * 32 + c;
                assert(b / 32 == k - start && b % 32 == c);
                assert(bits.has(b) && !old(self).has(node as int, b));
            }
            if exists|b: int| bits.has(b) && !old(self).has(node as int, b) {
                let b = choose|b: int| bits.has(b) && !old(self).has(node as int, b);
                let k = start + b / 32;
                assert(bit_at(bits.word(k - start), b % 32) && !bit_at(old(self).words[k], b % 32));
            }
        }
        changed
    }

    /// Or-s the row of `source_node` into the row of `target_node`; tells
    /// whether a bit was added.
    pub fn insert_bits_from_node(&mut self, source_node: usize, target_node: usize) -> (changed:
        bool)
        requires
            old(self).wf(),
            source_node < old(self).nodes(),
            target_node < old(self).nodes(),
        ensures
            final(self).wf(),
            final(self).nodes() == old(self).nodes(),
            final(self).width() == old(self).width(),
            forall|n: int, b: int|
                final(self).has(n, b) == (old(self).has(n, b) || (n == target_node && old(self).has(source_node as int, b))),
            changed == exists|b: int|
                old(self).has(source_node as int, b) && !old(self).has(target_node as int, b),
            final(self).slack() <= old(self).slack(),
            changed ==> final(self).slack() < old(self).slack(),
    {
        if source_node == target_node {
            return false;
        }
        let row = self.bits(source_node).to_buf();
        self.insert_bits_from_slice(target_node, row.as_slice())
    }

    /// Same as `insert_bits_from_node`.
    pub fn insert_bits_from(&mut self, source_node: usize, target_node: usize) -> (changed: bool)
        requires
            old(self).wf(),
            source_node < old(self).nodes(),
            target_node < old(self).nodes(),
        ensures
            final(self).wf(),
            final(self).nodes() == old(self).nodes(),
            final(self).width() == old(self).width(),
            forall|n: int, b: int|
                final(self).has(n, b) == (old(self).has(n, b) || (n == target_node && old(self).has(source_node as int, b))),
            changed == exists|b: int|
                old(self).has(source_node as int, b) && !old(self).has(target_node as int, b),
            final(self).slack() <= old(self).slack(),
            changed ==> final(self).slack() < old(self).slack(),
    {
        self.insert_bits_from_node(source_node, target_node)
    }
}

} // verus!
