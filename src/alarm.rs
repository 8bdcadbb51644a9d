use vstd::prelude::*;

verus! {

/// Number of hardware alarms.
pub const ALARM_COUNT: usize = 4;

/// Timestamp of an alarm that is not set.
pub const DISARMED: u64 = 0xFFFF_FFFF_FFFF_FFFF;

/// What the timer interrupt of an alarm must do.
#[derive(Debug, PartialEq, Eq, Structural)]
pub enum AlarmAction {
    /// The alarm time has passed: disarm it and run its callback.
    Fire,
    /// Not yet due (it lies more than 2^32 ticks ahead): arm the compare
    /// register again with this value.
    Rearm(u32),
}

/// The 64-bit counter from its high half, low half and high half read again:
/// the reading holds only if the high half did not change in between.
pub fn combine_counter(hi: u32, lo: u32, hi2: u32) -> (r: Option<u64>)
    ensures
        r == if hi == hi2 {
            Some(((hi as u64) * 0x1_0000_0000 + lo as u64) as u64)
        } else {
            None::<u64>
        },
{
    if hi == hi2 {
        Some((hi as u64) * 0x1_0000_0000 + lo as u64)
    } else {
        None
    }
}

/// The value for a 32-bit compare register: the low half of the timestamp.
pub fn compare_value(timestamp: u64) -> (r: u32)
    ensures
        r == timestamp % 0x1_0000_0000,
{
    (timestamp % 0x1_0000_0000) as u32
}

/// The alarm slots of a timer: each one's due time, and how many have been
/// handed out.
pub struct Alarms {
    timestamps: Vec<u64>,
    next_alarm: usize,
}

impl Alarms {
    /// Due time of each slot.
    pub closed spec fn due(&self) -> Seq<u64> {
        self.timestamps@
    }

    /// Number of slots handed out.
    pub closed spec fn allocated(&self) -> nat {
        self.next_alarm as nat
    }

    pub open spec fn wf(&self) -> bool {
        &&& self.due().len() == ALARM_COUNT
        &&& self.allocated() <= ALARM_COUNT
    }

    /// All slots free and disarmed.
    pub fn new() -> (r: Self)
        ensures
            r.wf(),
            r.allocated() == 0,
            forall|i: int| 0 <= i < ALARM_COUNT ==> r.due()[i] == DISARMED,
    {
        let mut timestamps: Vec<u64> = Vec::new();
        while timestamps.len() < ALARM_COUNT
            invariant
                timestamps@.len() <= ALARM_COUNT,
                forall|i: int| 0 <= i < timestamps@.len() ==> timestamps@[i] == DISARMED,
            decreases ALARM_COUNT - timestamps@.len(),
        {
            timestamps.push(DISARMED);
        }
        Alarms { timestamps, next_alarm: 0 }
    }

    /// Hands out the next free slot, if any is left.
    pub fn allocate_alarm(&mut self) -> (r: Option<usize>)
        requires
            old(self).wf(),
        ensures
            final(self).wf(),
            final(self).due() == old(self).due(),
            old(self).allocated() < ALARM_COUNT ==> r == Some(old(self).allocated() as usize)
                && final(self).allocated() == old(self).allocated() + 1,
            old(self).allocated() == ALARM_COUNT ==> r == None::<usize> && final(self).allocated()
                == old(self).allocated(),
    {
        if self.next_alarm < ALARM_COUNT {
            let id = self.next_alarm;
            self.next_alarm = self.next_alarm + 1;
            Some(id)
        } else {
            None
        }
    }

    /// Sets slot `n` to fire at `timestamp`, the counter now reading `now`.
    /// A time that has already passed cannot fire: the slot stays disarmed
    /// and the result is `false`.
    pub fn set_alarm(&mut self, n: usize, timestamp: u64, now: u64) -> (armed: bool)
        requires
            old(self).wf(),
            n < ALARM_COUNT,
        ensures
            final(self).wf(),
            final(self).allocated() == old(self).allocated(),
            armed == (timestamp > now),
            final(self).due() == old(self).due().update(n as int, if armed { timestamp } else { DISARMED }),
    {
        if timestamp <= now {
            self.timestamps.set(n, DISARMED);
            false
        } else {
            self.timestamps.set(n, timestamp);
            true
        }
    }

    /// Handles the interrupt of slot `n`, the counter now reading `now`: a
    /// due alarm is disarmed and fires; an early interrupt re-arms it.
    pub fn check_alarm(&mut self, n: usize, now: u64) -> (r: AlarmAction)
        requires
            old(self).wf(),
            n < ALARM_COUNT,
        ensures
            final(self).wf(),
            final(self).allocated() == old(self).allocated(),
            old(self).due()[n as int] <= now ==> r == AlarmAction::Fire && final(self).due()
                == old(self).due().update(n as int, DISARMED),
            old(self).due()[n as int] > now ==> r == AlarmAction::Rearm(
                (old(self).due()[n as int] % 0x1_0000_0000) as u32,
            ) && final(self).due() == old(self).due(),
    {
        let timestamp = self.timestamps[n];
        if timestamp <= now {
            self.timestamps.set(n, DISARMED);
            AlarmAction::Fire
        } else {
            AlarmAction::Rearm(compare_value(timestamp))
        }
    }
}

} // verus!
