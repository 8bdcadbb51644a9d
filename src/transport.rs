use vstd::prelude::*;

verus! {

/// One word exchange on the serial link, as seen from the host.
pub enum Op {
    /// The host sent these words.
    Write(Seq<u32>),
    /// The host clocked in these words from the device.
    Read(Seq<u32>),
    /// The exchange failed.
    Fault,
}

/// The shape of an exchange: what the host decided, without what the device answered.
pub open spec fn erase_op(op: Op) -> Op {
    match op {
        Op::Read(s) => Op::Read(Seq::new(s.len(), |i: int| 0u32)),
        other => other,
    }
}

/// The shapes of a sequence of exchanges.
pub open spec fn erase(ops: Seq<Op>) -> Seq<Op> {
    ops.map_values(|op: Op| erase_op(op))
}

/// The shape of a read of `n` words.
pub open spec fn read_shape(n: nat) -> Op {
    Op::Read(Seq::new(n, |i: int| 0u32))
}

/// Words clocked in by an exchange (empty for any other exchange).
pub open spec fn read_words(op: Op) -> Seq<u32> {
    match op {
        Op::Read(s) => s,
        _ => Seq::empty(),
    }
}

pub proof fn lemma_erase_concat(a: Seq<Op>, b: Seq<Op>)
    ensures
        erase(a + b) == erase(a) + erase(b),
{
    assert(erase(a + b) =~= erase(a) + erase(b));
}

/// The link went from `before` to `after` by running `shape` in order: all of
/// it when `ok`, else a part of it that ended in a fault at one of its exchanges.
pub open spec fn exchanged(before: Seq<Op>, after: Seq<Op>, shape: Seq<Op>, ok: bool) -> bool {
    &&& before.len() <= after.len()
    &&& after.take(before.len() as int) == before
    &&& if ok {
        erase(after.skip(before.len() as int)) == shape
    } else {
        exists|k: int|
            0 <= k < shape.len() && erase(after.skip(before.len() as int)) == shape.take(k).push(
                Op::Fault,
            )
    }
}

pub proof fn lemma_exchanged_none(t: Seq<Op>)
    ensures
        exchanged(t, t, Seq::empty(), true),
{
    assert(t.take(t.len() as int) =~= t);
    assert(erase(t.skip(t.len() as int)) =~= Seq::<Op>::empty());
}

pub proof fn lemma_exchanged_one(t: Seq<Op>, op: Op)
    requires
        op != Op::Fault,
    ensures
        exchanged(t, t.push(op), seq![erase_op(op)], true),
        exchanged(t, t.push(Op::Fault), seq![erase_op(op)], false),
{
    assert(t.push(op).take(t.len() as int) =~= t);
    assert(t.push(Op::Fault).take(t.len() as int) =~= t);
    assert(erase(t.push(op).skip(t.len() as int)) =~= seq![erase_op(op)]);
    assert(erase(t.push(Op::Fault).skip(t.len() as int)) =~= seq![erase_op(op)].take(0).push(
        Op::Fault,
    ));
}

pub proof fn lemma_exchanged_then(a: Seq<Op>, b: Seq<Op>, c: Seq<Op>, s1: Seq<Op>, s2: Seq<Op>, ok: bool)
    requires
        exchanged(a, b, s1, true),
        exchanged(b, c, s2, ok),
    ensures
        exchanged(a, c, s1 + s2, ok),
{
    assert(c.take(a.len() as int) =~= b.take(a.len() as int));
    assert(c.skip(a.len() as int) =~= b.skip(a.len() as int) + c.skip(b.len() as int));
    lemma_erase_concat(b.skip(a.len() as int), c.skip(b.len() as int));
    if !ok {
        let k = choose|k: int|
            0 <= k < s2.len() && erase(c.skip(b.len() as int)) == s2.take(k).push(Op::Fault);
        assert((s1 + s2).take(s1.len() + k) =~= s1 + s2.take(k));
        assert(s1 + s2.take(k).push(Op::Fault) =~= (s1 + s2).take(s1.len() + k).push(Op::Fault));
    }
}

pub proof fn lemma_exchanged_fault(a: Seq<Op>, b: Seq<Op>, s1: Seq<Op>, s2: Seq<Op>)
    requires
        exchanged(a, b, s1, false),
    ensures
        exchanged(a, b, s1 + s2, false),
{
    let k = choose|k: int|
        0 <= k < s1.len() && erase(b.skip(a.len() as int)) == s1.take(k).push(Op::Fault);
    assert((s1 + s2).take(k) =~= s1.take(k));
}

/// A half-duplex, word-oriented serial link. Every exchange is recorded in
/// `trace`, with the words read back from the device, or as a fault.
pub trait Transport {
    type Error;

    spec fn trace(&self) -> Seq<Op>;

    /// The error of the last failed exchange.
    spec fn last_fault(&self) -> Option<Self::Error>;

    /// Sends `words`, most significant bit first.
    fn write(&mut self, words: &[u32]) -> (r: Result<(), Self::Error>)
        ensures
            final(self).trace() == old(self).trace().push(
                match r {
                    Ok(_) => Op::Write(words@),
                    Err(_) => Op::Fault,
                },
            ),
            r matches Err(e) ==> final(self).last_fault() == Some(e),
    ;

    /// Fills `words` with words clocked in from the device.
    fn read(&mut self, words: &mut [u32]) -> (r: Result<(), Self::Error>)
        ensures
            final(words)@.len() == old(words)@.len(),
            final(self).trace() == old(self).trace().push(
                match r {
                    Ok(_) => Op::Read(final(words)@),
                    Err(_) => Op::Fault,
                },
            ),
            r matches Err(e) ==> final(self).last_fault() == Some(e),
    ;

    /// The link has no buffering: nothing is exchanged.
    fn flush(&mut self) -> (r: Result<(), Self::Error>)
        ensures
            final(self).trace() == old(self).trace(),
    ;
}

} // verus!
