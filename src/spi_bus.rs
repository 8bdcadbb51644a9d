use vstd::prelude::*;
use crate::serial::{
    fold_bits, receive_ops, receive_words, send_ops, send_words, shift_in, word_bit, LineOp, WORD_BITS,
};
use crate::transport::{Op, Transport};

verus! {

/// The two signals of the serial link: a clock the host drives, and one data
/// line that carries host data on writes and device data on reads.
/// Each action that succeeds is recorded in `ops`, in order. An
/// implementation verified here defines `ops` from its own state; one over
/// hardware pins keeps the default and is held to performing, on the pins,
/// the actions that the method contracts record.
pub trait Line {
    type Error;

    /// The actions taken on the line so far.
    open spec fn ops(&self) -> Seq<LineOp> {
        Seq::empty()
    }

    /// Drives the clock line.
    fn set_clock(&mut self, high: bool) -> (r: Result<(), Self::Error>)
        ensures
            r is Ok ==> final(self).ops() == old(self).ops().push(LineOp::Clock(high)),
    ;

    /// Drives the data line.
    fn set_data(&mut self, high: bool) -> (r: Result<(), Self::Error>)
        ensures
            r is Ok ==> final(self).ops() == old(self).ops().push(LineOp::Data(high)),
    ;

    /// Samples the data line.
    fn data_is_high(&mut self) -> (r: Result<bool, Self::Error>)
        ensures
            r matches Ok(b) ==> final(self).ops() == old(self).ops().push(LineOp::Sample(b)),
    ;
}

/// A software-clocked half-duplex link over a `Line`: 32 clock pulses per
/// word, most significant bit first in both directions.
pub struct SpiBus<L: Line> {
    line: L,
    history: Ghost<Seq<Op>>,
    fault: Ghost<Option<L::Error>>,
}

impl<L: Line> SpiBus<L> {
    /// A link over `line`, with nothing exchanged yet.
    pub fn new(line: L) -> (r: Self)
        ensures
            r.trace() == Seq::<Op>::empty(),
            r.line_log() == line.ops(),
    {
        SpiBus { line, history: Ghost(Seq::empty()), fault: Ghost(None) }
    }

    /// Every action taken on the line so far, in order.
    pub closed spec fn line_log(&self) -> Seq<LineOp> {
        self.line.ops()
    }

    /// Gives the line back.
    pub fn into_line(self) -> (r: L)
        ensures
            r.ops() == self.line_log(),
    {
        self.line
    }

    /// Sends one word: for each bit, clock low, data set, clock high.
    fn send_word(&mut self, word: u32) -> (r: Result<(), L::Error>)
        ensures
            final(self).history@ == old(self).history@,
            r is Ok ==> final(self).line.ops() == old(self).line.ops() + send_ops(word, WORD_BITS as nat),
    {
        let mut i: u32 = 0;
        while i < WORD_BITS
            invariant
                i <= WORD_BITS,
                self.history@ == old(self).history@,
                self.line.ops() == old(self).line.ops() + send_ops(word, i as nat),
            decreases WORD_BITS - i,
        {
            let bit = word_bit(word, i);
            if let Err(e) = self.line.set_clock(false) {
                return Err(e);
            }
            if let Err(e) = self.line.set_data(bit) {
                return Err(e);
            }
            if let Err(e) = self.line.set_clock(true) {
                return Err(e);
            }
            assert(self.line.ops() =~= old(self).line.ops() + send_ops(word, (i + 1) as nat));
            i += 1;
        }
        Ok(())
    }

    /// Receives one word: for each bit, sample data, clock high, clock low.
    fn receive_word(&mut self) -> (r: Result<u32, L::Error>)
        ensures
            final(self).history@ == old(self).history@,
            r matches Ok(w) ==> exists|bits: Seq<bool>|
                bits.len() == WORD_BITS && w == fold_bits(bits) && #[trigger] receive_ops(bits)
                    == final(self).line.ops().skip(old(self).line.ops().len() as int),
            r is Ok ==> old(self).line.ops().len() <= final(self).line.ops().len() && final(self).line.ops().take(
                old(self).line.ops().len() as int,
            ) == old(self).line.ops(),
    {
        let mut acc: u32 = 0;
        let ghost mut bits: Seq<bool> = Seq::empty();
        let mut i: u32 = 0;
        while i < WORD_BITS
            invariant
                i <= WORD_BITS,
                bits.len() == i,
                acc == fold_bits(bits),
                self.history@ == old(self).history@,
                self.line.ops() == old(self).line.ops() + receive_ops(bits),
            decreases WORD_BITS - i,
        {
            let bit = match self.line.data_is_high() {
                Ok(b) => b,
                Err(e) => return Err(e),
            };
            acc = shift_in(acc, bit);
            proof {
                let nb = bits.push(bit);
                assert(nb.drop_last() =~= bits);
                bits = nb;
            }
            if let Err(e) = self.line.set_clock(true) {
                return Err(e);
            }
            if let Err(e) = self.line.set_clock(false) {
                return Err(e);
            }
            assert(self.line.ops() =~= old(self).line.ops() + receive_ops(bits));
            i += 1;
        }
        assert(self.line.ops().skip(old(self).line.ops().len() as int) =~= receive_ops(bits));
        assert(self.line.ops().take(old(self).line.ops().len() as int) =~= old(self).line.ops());
        Ok(acc)
    }
}

impl<L: Line> Transport for SpiBus<L> {
    type Error = L::Error;

    closed spec fn trace(&self) -> Seq<Op> {
        self.history@
    }

    closed spec fn last_fault(&self) -> Option<L::Error> {
        self.fault@
    }

    /// Sends each word, 32 clock pulses, most significant bit first, with
    /// no idle edge between words, and leaves the clock low.
    fn write(&mut self, words: &[u32]) -> (r: Result<(), L::Error>)
        ensures
            r is Ok ==> final(self).line_log() == old(self).line_log() + send_words(words@) + seq![LineOp::Clock(false)],
    {
        let mut i: usize = 0;
        while i < words.len()
            invariant
                i <= words@.len(),
                self.history@ == old(self).history@,
                self.line.ops() == old(self).line.ops() + send_words(words@.take(i as int)),
            decreases words@.len() - i,
        {
            if let Err(e) = self.send_word(words[i]) {
                self.history = Ghost(self.history@.push(Op::Fault));
                self.fault = Ghost(Some(e));
                return Err(e);
            }
            assert(words@.take(i + 1).drop_last() =~= words@.take(i as int));
            assert(self.line.ops() =~= old(self).line.ops() + send_words(words@.take(i + 1)));
            i += 1;
        }
        assert(words@.take(i as int) =~= words@);
        if let Err(e) = self.line.set_clock(false) {
            self.history = Ghost(self.history@.push(Op::Fault));
            self.fault = Ghost(Some(e));
            return Err(e);
        }
        self.history = Ghost(self.history@.push(Op::Write(words@)));
        Ok(())
    }

    /// Fills each slot with a word sampled over 32 clock pulses, most
    /// significant bit first: bit 31 is sampled first and shifted in at the
    /// least significant position.
    fn read(&mut self, words: &mut [u32]) -> (r: Result<(), L::Error>)
        ensures
            r is Ok ==> exists|per_word: Seq<Seq<bool>>| {
                &&& per_word.len() == old(words)@.len()
                &&& forall|i: int| 0 <= i < per_word.len() ==> (#[trigger] per_word[i]).len() == WORD_BITS
                    && final(words)@[i] == fold_bits(per_word[i])
                &&& final(self).line_log() == old(self).line_log() + #[trigger] receive_words(per_word)
            },
    {
        let n = words.len();
        let ghost mut per_word: Seq<Seq<bool>> = Seq::empty();
        let mut i: usize = 0;
        while i < n
            invariant
                n == words@.len(),
                n == old(words)@.len(),
                i <= n,
                per_word.len() == i,
                forall|j: int| 0 <= j < i ==> (#[trigger] per_word[j]).len() == WORD_BITS && words@[j] == fold_bits(per_word[j]),
                self.history@ == old(self).history@,
                self.line.ops() == old(self).line.ops() + receive_words(per_word),
            decreases n - i,
        {
            let ghost before = self.line.ops();
            match self.receive_word() {
                Ok(w) => {
                    proof {
                        let bits = choose|bits: Seq<bool>|
                            bits.len() == WORD_BITS && w == fold_bits(bits) && #[trigger] receive_ops(bits)
                                == self.line.ops().skip(before.len() as int);
                        let np = per_word.push(bits);
                        assert(np.drop_last() =~= per_word);
                        assert(self.line.ops() =~= before + self.line.ops().skip(before.len() as int));
                        assert(receive_words(np) == receive_words(per_word) + receive_ops(bits));
                        assert(self.line.ops() =~= old(self).line.ops() + receive_words(np));
                        per_word = np;
                    }
                    words[i] = w;
                },
                Err(e) => {
                    self.history = Ghost(self.history@.push(Op::Fault));
                    self.fault = Ghost(Some(e));
                    return Err(e);
                },
            }
            i += 1;
        }
        self.history = Ghost(self.history@.push(Op::Read(words@)));
        Ok(())
    }

    fn flush(&mut self) -> (r: Result<(), L::Error>) {
        Ok(())
    }
}

/// A line that records every action and answers samples from a list of
/// levels (low once the list is used up). It never fails.
pub struct RecordingLine {
    actions: Vec<LineOp>,
    levels: Vec<bool>,
    next: usize,
}

impl RecordingLine {
    /// A line whose samples read `levels`, in order.
    pub fn new(levels: Vec<bool>) -> (r: Self)
        ensures
            r.ops() == Seq::<LineOp>::empty(),
    {
        RecordingLine { actions: Vec::new(), levels, next: 0 }
    }

    /// The actions taken so far, in order.
    pub fn actions(&self) -> (r: &Vec<LineOp>)
        ensures
            r@ == self.ops(),
    {
        &self.actions
    }
}

impl Line for RecordingLine {
    type Error = ();

    closed spec fn ops(&self) -> Seq<LineOp> {
        self.actions@
    }

    fn set_clock(&mut self, high: bool) -> (r: Result<(), ()>) {
        self.actions.push(LineOp::Clock(high));
        Ok(())
    }

    fn set_data(&mut self, high: bool) -> (r: Result<(), ()>) {
        self.actions.push(LineOp::Data(high));
        Ok(())
    }

    fn data_is_high(&mut self) -> (r: Result<bool, ()>) {
        let b = if self.next < self.levels.len() {
            let b = self.levels[self.next];
            self.next = self.next + 1;
            b
        } else {
            false
        };
        self.actions.push(LineOp::Sample(b));
        Ok(b)
    }
}

} // verus!
