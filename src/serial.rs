use vstd::prelude::*;

verus! {

/// Number of bit-times per word on the serial link.
pub const WORD_BITS: u32 = 32;

/// The bit driven during bit-time `i` of `word`: most significant bit first.
pub open spec fn bit_sent(word: u32, i: u32) -> bool {
    (word >> (31 - i) as u32) & 1u32 == 1u32
}

/// The accumulator after one more sampled bit: shifted left, the bit entering
/// at the least significant position.
pub open spec fn shift_in_spec(acc: u32, bit: bool) -> u32 {
    ((acc << 1u32) | (if bit { 1u32 } else { 0u32 })) as u32
}

/// The word assembled by shifting in `bits` in order, the first bit ending
/// up most significant.
pub open spec fn fold_bits(bits: Seq<bool>) -> u32
    decreases bits.len(),
{
    if bits.len() == 0 {
        0
    } else {
        shift_in_spec(fold_bits(bits.drop_last()), bits.last())
    }
}

/// The first `k` bits that `word` drives, in order.
pub open spec fn sent_bits(word: u32, k: nat) -> Seq<bool> {
    Seq::new(k, |i: int| bit_sent(word, i as u32))
}

/// The word assembled after sampling the first `k` bits that `word` drives.
pub open spec fn received(word: u32, k: nat) -> u32 {
    fold_bits(sent_bits(word, k))
}

/// One action of the link on its line.
#[derive(Clone, Copy, Debug, PartialEq, Eq, Structural)]
pub enum LineOp {
    /// The clock was driven to this level.
    Clock(bool),
    /// The data line was driven to this level.
    Data(bool),
    /// The data line was sampled and read at this level.
    Sample(bool),
}

/// Line actions that send the first `k` bits of `word`: for each, clock low,
/// data set to the bit, clock high (the device samples on the rising edge).
pub open spec fn send_ops(word: u32, k: nat) -> Seq<LineOp>
    decreases k,
{
    if k == 0 {
        Seq::empty()
    } else {
        send_ops(word, (k - 1) as nat) + seq![
            LineOp::Clock(false),
            LineOp::Data(bit_sent(word, (k - 1) as u32)),
            LineOp::Clock(true),
        ]
    }
}

/// Line actions that send `words`, 32 bits each, with no idle edge between
/// words.
pub open spec fn send_words(words: Seq<u32>) -> Seq<LineOp>
    decreases words.len(),
{
    if words.len() == 0 {
        Seq::empty()
    } else {
        send_words(words.drop_last()) + send_ops(words.last(), WORD_BITS as nat)
    }
}

/// Line actions that sample `bits`: for each, sample, clock high, clock low.
/// A write leaves the clock low and the device drives each bit after a
/// falling edge, so the first bit is on the line before any pulse; sampling
/// first keeps exactly 32 pulses per word, with no extra edge.
pub open spec fn receive_ops(bits: Seq<bool>) -> Seq<LineOp>
    decreases bits.len(),
{
    if bits.len() == 0 {
        Seq::empty()
    } else {
        receive_ops(bits.drop_last()) + seq![LineOp::Sample(bits.last()), LineOp::Clock(true), LineOp::Clock(false)]
    }
}

/// Line actions that sample the words whose bits are `per_word`, in order.
pub open spec fn receive_words(per_word: Seq<Seq<bool>>) -> Seq<LineOp>
    decreases per_word.len(),
{
    if per_word.len() == 0 {
        Seq::empty()
    } else {
        receive_words(per_word.drop_last()) + receive_ops(per_word.last())
    }
}

/// The data line level to drive during bit-time `i` of `word`.
pub fn word_bit(word: u32, i: u32) -> (r: bool)
    requires
        i < WORD_BITS,
    ensures
        r == bit_sent(word, i),
{
    (word >> (31 - i)) & 1 == 1
}

/// Shifts one sampled bit into the accumulator.
pub fn shift_in(acc: u32, bit: bool) -> (r: u32)
    ensures
        r == shift_in_spec(acc, bit),
{
    (acc << 1u32) | (if bit { 1u32 } else { 0u32 })
}

proof fn lemma_received_prefix(word: u32, k: nat)
    requires
        1 <= k <= 32,
    ensures
        received(word, k) == word >> (32 - k) as u32,
    decreases k,
{
    assert(sent_bits(word, k).drop_last() =~= sent_bits(word, (k - 1) as nat));
    if k == 1 {
        assert(sent_bits(word, 0) =~= Seq::<bool>::empty());
        assert(received(word, 0) == 0);
        assert(shift_in_spec(0, bit_sent(word, 0)) == word >> 31u32) by (bit_vector);
    } else {
        lemma_received_prefix(word, (k - 1) as nat);
        let j = (k - 1) as u32;
        assert((32 - k) as u32 == (31 - j) as u32);
        assert((32 - (k - 1) as nat) as u32 == (32 - j) as u32);
        assert(shift_in_spec(word >> (32 - j) as u32, bit_sent(word, j)) == word >> (31 - j) as u32)
            by (bit_vector)
            requires
                1 <= j < 32,
        ;
    }
}

/// Sampling the 32 bits that a word drives, most significant first, gives
/// the word back: the write and read directions of the link agree.
pub proof fn lemma_serial_round_trip(word: u32)
    ensures
        received(word, 32) == word,
{
    lemma_received_prefix(word, 32);
    assert(word >> 0u32 == word) by (bit_vector);
}

} // verus!
