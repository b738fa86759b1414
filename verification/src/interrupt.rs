//! Interrupt bookkeeping: the reentrant interrupt guard, the registered
//! IRQ handlers and the timer's preemption decision.
use crate::arch::isr::IntrptStack;
use crate::arch::pic::VECTOR_PIC;
use vstd::prelude::*;

verus! {

/// An IRQ line number.
pub type IrqVector = u8;

/// A guard that keeps interrupts off on a CPU while held; held guards are
/// counted, and interrupts go back on when the last one is dropped.
pub struct IntrptGuard {
    _private: (),
}

impl IntrptGuard {
    /// Takes a guard (interrupts are off from now on), counting it in `cnt`.
    pub fn new(cnt: &mut u64) -> (r: Self)
        requires
            *old(cnt) < u64::MAX,
        ensures
            *final(cnt) == *old(cnt) + 1,
    {
        *cnt = *cnt + 1;
        IntrptGuard { _private: () }
    }

    /// Takes back a guard that was leaked.
    pub fn reclaim() -> (r: Self) {
        IntrptGuard { _private: () }
    }

    /// Leaks the guard: it stays counted.
    pub fn leak(self) {
    }

    /// Returns the number of guards held.
    pub fn cnt(cnt: &u64) -> (r: u64)
        ensures
            r == *cnt,
    {
        *cnt
    }

    /// Drops the guard, uncounting it. Returns whether it was the last one,
    /// so that interrupts go back on.
    pub fn release(self, cnt: &mut u64) -> (r: bool)
        requires
            *old(cnt) > 0,
        ensures
            *final(cnt) == *old(cnt) - 1,
            r == (*old(cnt) == 1),
    {
        let prev = *cnt;
        *cnt = *cnt - 1;
        prev == 1
    }
}

/// What an IRQ handler is told of the interrupt.
#[derive(Debug, Clone, Copy)]
pub struct IrqInfo {
    pub errno: u64,
    pub ip: u64,
    pub sp: u64,
}

/// The information handed to IRQ handlers, from the saved registers.
pub fn build_irq_info(stack: &IntrptStack) -> (r: IrqInfo)
    ensures
        r.errno == stack.errno,
        r.ip == stack.ip,
        r.sp == stack.sp,
{
    IrqInfo { errno: stack.errno, ip: stack.ip, sp: stack.sp }
}

/// The IRQ line of interrupt vector `vec`.
pub fn from_intrpt_vector(vec: u8) -> (r: IrqVector)
    requires
        vec >= VECTOR_PIC,
    ensures
        r == vec - VECTOR_PIC,
{
    vec - VECTOR_PIC
}

/// The handlers registered for each of the 16 IRQ lines, by handler
/// address, in registration order.
pub struct HandlerTable {
    queues: Vec<Vec<u64>>,
}

impl HandlerTable {
    /// The handlers of each line.
    pub closed spec fn lines(&self) -> Seq<Seq<u64>> {
        self.queues@.map_values(|q: Vec<u64>| q@)
    }

    /// A table with no handler.
    pub fn new() -> (r: Self)
        ensures
            r.lines().len() == 16,
            forall|i: int| 0 <= i < 16 ==> #[trigger] r.lines()[i] == Seq::<u64>::empty(),
    {
        let mut queues: Vec<Vec<u64>> = Vec::new();
        while queues.len() < 16
            invariant
                queues@.len() <= 16,
                forall|i: int| 0 <= i < queues@.len() ==> #[trigger] queues@[i]@ == Seq::<u64>::empty(),
            decreases 16 - queues@.len(),
        {
            queues.push(Vec::new());
        }
        HandlerTable { queues }
    }

    /// Returns the handlers of line `irq`, in order.
    pub fn handlers(&self, irq: IrqVector) -> (r: &Vec<u64>)
        requires
            self.lines().len() == 16,
            irq < 16,
        ensures
            r@ == self.lines()[irq as int],
    {
        &self.queues[irq as usize]
    }
}

/// Registers the handler at address `f` for interrupt vector `vec`: it is
/// appended to the handlers of line `vec - VECTOR_PIC`. Vectors outside
/// 33 to 47 (the timer's included) are refused, and false is returned.
pub fn register_handler(table: &mut HandlerTable, vec: IrqVector, f: u64) -> (r: bool)
    requires
        old(table).lines().len() == 16,
    ensures
        r == (33 <= vec <= 47),
        final(table).lines() == if r {
            old(table).lines().update(
                vec - VECTOR_PIC,
                old(table).lines()[vec - VECTOR_PIC].push(f),
            )
        } else {
            old(table).lines()
        },
{
    if !(33 <= vec && vec <= 47) {
        return false;
    }
    let line = (vec - VECTOR_PIC) as usize;
    let mut q = table.queues[line].clone();
    assert(q@ == table.queues@[line as int]@);
    q.push(f);
    table.queues.set(line, q);
    proof {
        assert(table.lines() =~= old(table).lines().update(
            vec - VECTOR_PIC,
            old(table).lines()[vec - VECTOR_PIC].push(f),
        ));
    }
    true
}

/// Ticks between preemptions.
pub const PREEMPT_TICK: u64 = 16;

/// Counts a timer tick; returns whether the running thread is to be
/// preempted, which happens on every sixteenth tick, the first included.
pub fn timer_handler(tick: &mut u64) -> (r: bool)
    ensures
        *final(tick) == (*old(tick) + 1) % 0x1_0000_0000_0000_0000,
        r == (*old(tick) % PREEMPT_TICK == 0),
{
    let t = *tick;
    *tick = t.wrapping_add(1);
    t % PREEMPT_TICK == 0
}

} // verus!
