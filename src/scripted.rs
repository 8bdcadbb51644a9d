use vstd::prelude::*;
use crate::transport::{Op, Transport};

verus! {

/// The fault a scripted link reports once it has gone down.
#[derive(Clone, Copy, Debug, PartialEq, Eq)]
pub struct LinkDown;

/// One successful exchange recorded by a scripted link.
#[derive(Debug, PartialEq, Eq)]
pub enum Exchange {
    Write(Vec<u32>),
    Read(Vec<u32>),
}

/// A simulated link: it records what the host sends and answers reads from a
/// fixed list of words (zero once the list is used up). It can be told to go
/// down after a number of successful exchanges.
pub struct ScriptedTransport {
    log: Vec<Exchange>,
    replies: Vec<u32>,
    next: usize,
    fail_after: Option<usize>,
    dead: bool,
    faults: Ghost<nat>,
}

/// Reply word number `k` of `replies`, zero past their end.
pub open spec fn answer_at(replies: Seq<u32>, k: int) -> u32 {
    if 0 <= k < replies.len() {
        replies[k]
    } else {
        0
    }
}

/// The exchange of the link that a recorded exchange stands for.
pub open spec fn exchange_op(e: Exchange) -> Op {
    match e {
        Exchange::Write(v) => Op::Write(v@),
        Exchange::Read(v) => Op::Read(v@),
    }
}

impl ScriptedTransport {
    /// The link has gone down: every further exchange fails.
    pub closed spec fn down(&self) -> bool {
        self.dead || match self.fail_after {
            Some(k) => self.log@.len() >= k,
            None => false,
        }
    }

    /// The link never goes down.
    pub closed spec fn reliable(&self) -> bool {
        self.fail_after is None && !self.dead
    }

    /// The reply words.
    pub closed spec fn replies(&self) -> Seq<u32> {
        self.replies@
    }

    /// How many reply words have been handed out.
    pub closed spec fn used(&self) -> nat {
        self.next as nat
    }

    /// A link that answers reads with `replies`, in order.
    pub fn new(replies: Vec<u32>) -> (r: Self)
        ensures
            r.trace() == Seq::<Op>::empty(),
            r.reliable(),
            !r.down(),
            r.used() == 0,
            r.replies() == replies@,
    {
        ScriptedTransport { log: Vec::new(), replies, next: 0, fail_after: None, dead: false, faults: Ghost(0) }
    }

    /// A link that answers reads with `replies` and fails every exchange
    /// after the first `ok_exchanges`.
    pub fn failing_after(replies: Vec<u32>, ok_exchanges: usize) -> (r: Self)
        ensures
            r.trace() == Seq::<Op>::empty(),
            r.down() == (ok_exchanges == 0),
            r.used() == 0,
            r.replies() == replies@,
    {
        ScriptedTransport {
            log: Vec::new(),
            replies,
            next: 0,
            fail_after: Some(ok_exchanges),
            dead: false,
            faults: Ghost(0),
        }
    }

    /// The successful exchanges so far, in order: the exchanges of `trace`
    /// up to the first fault, after which all fail.
    pub fn log(&self) -> (r: &Vec<Exchange>)
        ensures
            r@.len() <= self.trace().len(),
            forall|i: int| 0 <= i < r@.len() ==> #[trigger] self.trace()[i] == exchange_op(r@[i]),
            forall|i: int| r@.len() <= i < self.trace().len() ==> #[trigger] self.trace()[i] == Op::Fault,
    {
        &self.log
    }

    /// Number of reply words handed out so far.
    pub fn replies_used(&self) -> (r: usize)
        ensures
            r == self.used(),
    {
        self.next
    }

    fn is_down(&self) -> (r: bool)
        ensures
            r == self.down(),
    {
        self.dead || match self.fail_after {
            Some(k) => self.log.len() >= k,
            None => false,
        }
    }

    fn go_down(&mut self)
        requires
            old(self).down(),
        ensures
            final(self).trace() == old(self).trace().push(Op::Fault),
            final(self).down(),
            final(self).reliable() == old(self).reliable(),
            final(self).replies() == old(self).replies(),
            final(self).used() == old(self).used(),
            final(self).log@ == old(self).log@,
    {
        let ghost n: nat = if self.dead { self.faults@ + 1 } else { 1 };
        assert(self.log@.map_values(|e: Exchange| exchange_op(e)) + Seq::new(n, |i: int| Op::Fault)
            =~= self.trace().push(Op::Fault));
        self.dead = true;
        self.faults = Ghost(n);
    }
}

impl Transport for ScriptedTransport {
    type Error = LinkDown;

    closed spec fn trace(&self) -> Seq<Op> {
        self.log@.map_values(|e: Exchange| exchange_op(e)) + if self.dead {
            Seq::new(self.faults@, |i: int| Op::Fault)
        } else {
            Seq::empty()
        }
    }

    closed spec fn last_fault(&self) -> Option<LinkDown> {
        Some(LinkDown)
    }

    /// Fails exactly when the link is down.
    fn write(&mut self, words: &[u32]) -> (r: Result<(), LinkDown>)
        ensures
            r is Ok <==> !old(self).down(),
            final(self).reliable() == old(self).reliable(),
            final(self).reliable() ==> !final(self).down(),
            final(self).replies() == old(self).replies(),
            final(self).used() == old(self).used(),
    {
        if self.is_down() {
            self.go_down();
            return Err(LinkDown);
        }
        let mut copy: Vec<u32> = Vec::new();
        let mut i: usize = 0;
        while i < words.len()
            invariant
                i <= words@.len(),
                copy@ == words@.take(i as int),
            decreases words@.len() - i,
        {
            copy.push(words[i]);
            i += 1;
            assert(copy@ =~= words@.take(i as int));
        }
        assert(words@.take(i as int) =~= words@);
        let ghost l0 = self.log@;
        self.log.push(Exchange::Write(copy));
        assert(self.log@.map_values(|e: Exchange| exchange_op(e)) =~= l0.map_values(|e: Exchange| exchange_op(e)).push(Op::Write(words@)));
        assert(self.trace() =~= old(self).trace().push(Op::Write(words@)));
        Ok(())
    }

    /// Fails exactly when the link is down; else answers with the next reply
    /// words, zeros once they run out.
    fn read(&mut self, words: &mut [u32]) -> (r: Result<(), LinkDown>)
        ensures
            r is Ok <==> !old(self).down(),
            r is Ok ==> forall|i: int| 0 <= i < old(words)@.len() ==> final(words)@[i] == answer_at(
                old(self).replies(),
                old(self).used() + i,
            ),
            final(self).reliable() == old(self).reliable(),
            final(self).reliable() ==> !final(self).down(),
            final(self).replies() == old(self).replies(),
            r is Ok && old(self).used() + old(words)@.len() <= old(self).replies().len() ==> final(self).used()
                == old(self).used() + old(words)@.len(),
    {
        if self.is_down() {
            self.go_down();
            return Err(LinkDown);
        }
        let mut copy: Vec<u32> = Vec::new();
        let n = words.len();
        let mut i: usize = 0;
        while i < n
            invariant
                n == words@.len(),
                n == old(words)@.len(),
                self.dead == old(self).dead,
                self.faults@ == old(self).faults@,
                self.replies@ == old(self).replies@,
                self.fail_after == old(self).fail_after,
                self.log@ == old(self).log@,
                i <= n,
                copy@ == words@.take(i as int),
                self.next == if old(self).next + i <= self.replies@.len() {
                    old(self).next + i
                } else if old(self).next <= self.replies@.len() {
                    self.replies@.len() as int
                } else {
                    old(self).next as int
                },
                forall|j: int| 0 <= j < i ==> words@[j] == answer_at(self.replies@, old(self).next + j),
            decreases n - i,
        {
            let w = if self.next < self.replies.len() {
                let w = self.replies[self.next];
                self.next = self.next + 1;
                w
            } else {
                0
            };
            words[i] = w;
            copy.push(w);
            i += 1;
            assert(copy@ =~= words@.take(i as int));
        }
        assert(words@.take(i as int) =~= words@);
        let ghost l0 = self.log@;
        self.log.push(Exchange::Read(copy));
        assert(self.log@.map_values(|e: Exchange| exchange_op(e)) =~= l0.map_values(|e: Exchange| exchange_op(e)).push(Op::Read(words@)));
        assert(self.trace() =~= old(self).trace().push(Op::Read(words@)));
        Ok(())
    }

    fn flush(&mut self) -> (r: Result<(), LinkDown>) {
        Ok(())
    }
}

} // verus!
