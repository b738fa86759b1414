//! Thread scheduling: the queues of a CPU's dispatcher, the decision to
//! switch threads, and the guards that keep preemption and interrupts off.
use std::collections::VecDeque;
use vstd::prelude::*;

verus! {

/// The execution state of a thread.
#[derive(Debug, Clone, Copy, PartialEq, Eq, Structural)]
pub enum ThreadState {
    Running,
    Ready,
    Zombie,
}

/// A unique thread identifier.
#[derive(Debug, Clone, Copy, PartialEq, Eq, Structural)]
pub struct ThreadId(pub u64);

/// The priority of the idle thread; a lower value is a higher priority.
pub const IDLE_PRIORITY: u8 = 255;

/// What the scheduler keeps of a thread.
#[derive(Debug, Clone, Copy, PartialEq, Eq, Structural)]
pub struct Tcb {
    /// Unique thread ID.
    pub tid: ThreadId,
    /// The saved stack pointer of a thread that is not running.
    pub sp: u64,
    /// CPU ID.
    pub cpu_id: u8,
    /// Priority; lower is higher, and the idle thread has the lowest.
    pub priority: u8,
    /// Whether the thread backs a user task.
    pub is_usr: bool,
    /// Current execution state.
    pub state: ThreadState,
}

/// A CPU's threads that are not running: the ready and zombie queues, and
/// the idle thread.
pub struct Dispatcher {
    ready_threads: VecDeque<Tcb>,
    zombie_threads: VecDeque<Tcb>,
    idle: Option<Tcb>,
}

/// The queues of a dispatcher: ready, zombie, and the idle slot.
pub type Queues = (Seq<Tcb>, Seq<Tcb>, Option<Tcb>);

/// The queues after putting `t`: on the queue of its state, or, for the
/// idle thread, in the idle slot unless it is taken.
pub open spec fn put_queues(q: Queues, t: Tcb) -> Queues {
    if t.priority != IDLE_PRIORITY {
        if t.state == ThreadState::Ready {
            (q.0.push(t), q.1, q.2)
        } else {
            (q.0, q.1.push(t), q.2)
        }
    } else if q.2.is_some() {
        q
    } else {
        (q.0, q.1, Some(t))
    }
}

/// The thread taken next from `q`, and the queues after: the front of the
/// ready queue, else the idle thread.
pub open spec fn next_queues(q: Queues) -> (Option<Tcb>, Queues) {
    if q.0.len() > 0 {
        (Some(q.0[0]), (q.0.drop_first(), q.1, q.2))
    } else {
        (q.2, (q.0, q.1, None))
    }
}

impl Dispatcher {
    /// The queues of the dispatcher.
    pub open spec fn queues(&self) -> Queues {
        (self.ready(), self.zombies(), self.idle_thread())
    }

    /// The ready queue, front first.
    pub closed spec fn ready(&self) -> Seq<Tcb> {
        self.ready_threads@
    }

    /// The zombie queue, front first.
    pub closed spec fn zombies(&self) -> Seq<Tcb> {
        self.zombie_threads@
    }

    /// The parked idle thread, if any.
    pub closed spec fn idle_thread(&self) -> Option<Tcb> {
        self.idle
    }

    /// A dispatcher holding no thread.
    pub fn new() -> (r: Self)
        ensures
            r.ready() == Seq::<Tcb>::empty(),
            r.zombies() == Seq::<Tcb>::empty(),
            r.idle_thread().is_none(),
    {
        Dispatcher { ready_threads: VecDeque::new(), zombie_threads: VecDeque::new(), idle: None }
    }

    /// Takes the next thread to run: the front of the ready queue, else the
    /// idle thread.
    pub fn next(&mut self) -> (r: Option<Tcb>)
        ensures
            (r, final(self).queues()) == next_queues(old(self).queues()),
    {
        match self.ready_threads.pop_front() {
            Some(t) => {
                assert(self.ready() =~= old(self).ready().drop_first());
                Some(t)
            },
            None => self.idle.take(),
        }
    }

    /// Puts a thread that is not running on the queue of its state; the
    /// idle thread goes to the idle slot, unless one is parked already, in
    /// which case it is dropped.
    pub fn put(&mut self, thread: Tcb)
        requires
            thread.priority != IDLE_PRIORITY ==> thread.state != ThreadState::Running,
        ensures
            final(self).queues() == put_queues(old(self).queues(), thread),
    {
        if thread.priority != IDLE_PRIORITY {
            match thread.state {
                ThreadState::Ready => self.ready_threads.push_back(thread),
                _ => self.zombie_threads.push_back(thread),
            }
            return ;
        }
        if self.idle.is_some() {
            return ;
        }
        self.idle = Some(thread);
    }
}

/// The law of the ready queue: putting a ready thread that is not the idle
/// thread adds it at the back, whatever the queue holds, keeping every
/// thread already waiting in its place and leaving the other queues alone.
pub proof fn lemma_put_ready_at_back(q: Queues, t: Tcb)
    requires
        t.priority != IDLE_PRIORITY,
        t.state == ThreadState::Ready,
    ensures
        put_queues(q, t).0.len() == q.0.len() + 1,
        put_queues(q, t).0[q.0.len() as int] == t,
        forall|i: int| 0 <= i < q.0.len() ==> #[trigger] put_queues(q, t).0[i] == q.0[i],
        put_queues(q, t).1 == q.1,
        put_queues(q, t).2 == q.2,
{
}

/// Round robin: threads made ready one after another are taken by
/// [`Dispatcher::next`] in the same order. Putting a ready thread on a
/// non-empty ready queue does not change which thread comes next, and
/// taking it first then putting the thread gives the same queues as putting
/// first then taking.
pub proof fn lemma_put_then_next_fifo(q: Queues, t: Tcb)
    requires
        t.priority != IDLE_PRIORITY,
        t.state == ThreadState::Ready,
        q.0.len() > 0,
    ensures
        next_queues(put_queues(q, t)).0 == next_queues(q).0,
        next_queues(put_queues(q, t)).1 == put_queues(next_queues(q).1, t),
{
    assert(q.0.push(t).drop_first() =~= q.0.drop_first().push(t));
}

/// Threads put ready, one by one, on an empty ready queue come out of it
/// front first in the order they were put.
pub proof fn lemma_ready_order(q: Queues, ts: Seq<Tcb>)
    requires
        q.0.len() == 0,
        forall|i: int|
            0 <= i < ts.len() ==> (#[trigger] ts[i]).priority != IDLE_PRIORITY && ts[i].state
                == ThreadState::Ready,
    ensures
        put_all(q, ts).0 == ts,
    decreases ts.len(),
{
    if ts.len() > 0 {
        lemma_ready_order(q, ts.drop_last());
        assert(put_all(q, ts.drop_last()).0 == ts.drop_last());
        assert(ts.drop_last().push(ts.last()) =~= ts);
    }
}

/// The law of [`Dispatcher::next`]: it takes the thread at the front of the
/// ready queue, leaving the rest in order, and only when no thread is ready
/// the parked idle thread, emptying its slot; the zombie queue is left
/// alone.
pub proof fn lemma_next_takes_front(q: Queues)
    ensures
        next_queues(q).1.1 == q.1,
        q.0.len() > 0 ==> next_queues(q).0 == Some(q.0[0]) && next_queues(q).1.0.len() == q.0.len() - 1
            && (forall|i: int| 0 <= i < q.0.len() - 1 ==> #[trigger] next_queues(q).1.0[i] == q.0[i + 1])
            && next_queues(q).1.2 == q.2,
        q.0.len() == 0 ==> next_queues(q).0 == q.2 && next_queues(q).1.0.len() == 0 && next_queues(q).1.2
            is None,
{
}

/// The queues after putting the threads of `ts` in turn.
pub open spec fn put_all(q: Queues, ts: Seq<Tcb>) -> Queues
    decreases ts.len(),
{
    if ts.len() == 0 {
        q
    } else {
        put_queues(put_all(q, ts.drop_last()), ts.last())
    }
}

/// A switch from the running thread to another.
#[derive(Debug, Clone, Copy)]
pub struct Switch {
    /// The thread switched away from.
    pub from: ThreadId,
    /// The thread switched to.
    pub to: ThreadId,
    /// The saved stack pointer of the thread switched to.
    pub to_sp: u64,
}

/// A CPU's scheduler: its dispatcher, the running thread, and the next
/// thread ID to hand out.
pub struct Scheduler {
    dispatch: Dispatcher,
    current: Option<Tcb>,
    next_tid: u64,
}

impl Scheduler {
    /// The dispatcher.
    pub closed spec fn dispatcher(&self) -> &Dispatcher {
        &self.dispatch
    }

    /// The running thread, if any.
    pub closed spec fn running(&self) -> Option<Tcb> {
        self.current
    }

    /// The ID the next launched thread gets.
    pub closed spec fn fresh_tid(&self) -> u64 {
        self.next_tid
    }

    /// A scheduler with the idle thread, whose stack pointer is `idle_sp`,
    /// launched. Nothing runs yet.
    pub fn new(idle_sp: u64) -> (r: Self)
        ensures
            r.running().is_none(),
            r.fresh_tid() == 1,
            r.dispatcher().ready() == Seq::<Tcb>::empty(),
            r.dispatcher().zombies() == Seq::<Tcb>::empty(),
            r.dispatcher().idle_thread() == Some(
                Tcb {
                    tid: ThreadId(0),
                    sp: idle_sp,
                    cpu_id: 0,
                    priority: IDLE_PRIORITY,
                    is_usr: false,
                    state: ThreadState::Ready,
                },
            ),
    {
        let mut sched = Scheduler { dispatch: Dispatcher::new(), current: None, next_tid: 0 };
        sched.launch(IDLE_PRIORITY, idle_sp);
        sched
    }

    /// Creates a ready thread of `priority` whose stack pointer is `sp`,
    /// schedules it, and returns its ID.
    pub fn launch(&mut self, priority: u8, sp: u64) -> (r: ThreadId)
        requires
            old(self).fresh_tid() < u64::MAX,
        ensures
            r == ThreadId(old(self).fresh_tid()),
            final(self).fresh_tid() == old(self).fresh_tid() + 1,
            final(self).running() == old(self).running(),
            final(self).dispatcher().queues() == put_queues(
                old(self).dispatcher().queues(),
                Tcb { tid: r, sp, cpu_id: 0, priority, is_usr: false, state: ThreadState::Ready },
            ),
    {
        let tid = ThreadId(self.next_tid);
        self.next_tid = self.next_tid + 1;
        let thread = Tcb {
            tid,
            sp,
            cpu_id: 0,
            priority,
            is_usr: false,
            state: ThreadState::Ready,
        };
        self.dispatch.put(thread);
        tid
    }

    /// Yields the running thread, rescheduling it as `new_state`, to the
    /// next thread to run. Nothing happens when `new_state` is `Running` or
    /// there is no other thread; else the next thread runs and the switch
    /// is returned.
    pub fn reschedule(&mut self, new_state: ThreadState) -> (r: Option<Switch>)
        requires
            old(self).running().is_some(),
        ensures
            final(self).fresh_tid() == old(self).fresh_tid(),
            ({
                let (next, rest) = next_queues(old(self).dispatcher().queues());
                let me = old(self).running().unwrap();
                if new_state == ThreadState::Running || next.is_none() {
                    &&& r.is_none()
                    &&& final(self).running() == old(self).running()
                    &&& final(self).dispatcher().queues() == old(self).dispatcher().queues()
                } else {
                    let new = next.unwrap();
                    &&& r == Some(Switch { from: me.tid, to: new.tid, to_sp: new.sp })
                    &&& final(self).running() == Some(Tcb { state: ThreadState::Running, ..new })
                    &&& final(self).dispatcher().queues() == put_queues(
                        rest,
                        Tcb { state: new_state, ..me },
                    )
                }
            }),
    {
        if new_state == ThreadState::Running {
            return None;
        }
        let next = self.dispatch.next();
        let new_thread = match next {
            Some(t) => t,
            None => {
                return None;
            },
        };
        let running = Tcb { state: ThreadState::Running, ..new_thread };
        let me = match self.current {
            Some(t) => t,
            None => {
                return None;
            },
        };
        let mine = Tcb { state: new_state, ..me };
        self.dispatch.put(mine);
        self.current = Some(running);
        Some(Switch { from: me.tid, to: new_thread.tid, to_sp: new_thread.sp })
    }

    /// Runs the next thread without rescheduling the running one (there is
    /// none, or it is abandoned). Returns the thread's saved stack pointer.
    pub fn force_switch(&mut self) -> (r: u64)
        requires
            next_queues(old(self).dispatcher().queues()).0.is_some(),
        ensures
            ({
                let (next, rest) = next_queues(old(self).dispatcher().queues());
                let new = next.unwrap();
                &&& r == new.sp
                &&& final(self).running() == Some(Tcb { state: ThreadState::Running, ..new })
                &&& final(self).dispatcher().queues() == rest
            }),
            final(self).fresh_tid() == old(self).fresh_tid(),
    {
        let next = self.dispatch.next();
        match next {
            Some(t) => {
                self.current = Some(Tcb { state: ThreadState::Running, ..t });
                t.sp
            },
            None => 0,
        }
    }
}

/// Sets up the scheduler, with the idle thread, and launches the main
/// thread with priority 1.
pub fn init_scheduler(idle_sp: u64, main_sp: u64) -> (r: Scheduler)
    ensures
        r.running().is_none(),
        r.dispatcher().ready() == seq![
            Tcb {
                tid: ThreadId(1),
                sp: main_sp,
                cpu_id: 0,
                priority: 1,
                is_usr: false,
                state: ThreadState::Ready,
            },
        ],
        r.dispatcher().idle_thread() == Some(
            Tcb {
                tid: ThreadId(0),
                sp: idle_sp,
                cpu_id: 0,
                priority: IDLE_PRIORITY,
                is_usr: false,
                state: ThreadState::Ready,
            },
        ),
{
    let mut sched = Scheduler::new(idle_sp);
    sched.launch(1, main_sp);
    sched
}

/// Reschedules the running thread as ready if preemption is enabled, that
/// is if no preempt guard is held.
pub fn preempt(sched: &mut Scheduler, preempt_cnt: u64) -> (r: Option<Switch>)
    requires
        old(sched).running().is_some(),
    ensures
        preempt_cnt != 0 ==> r.is_none() && *final(sched) == *old(sched),
        preempt_cnt == 0 ==> final(sched).fresh_tid() == old(sched).fresh_tid() && ({
            let (next, rest) = next_queues(old(sched).dispatcher().queues());
            let me = old(sched).running().unwrap();
            if next.is_none() {
                &&& r.is_none()
                &&& final(sched).running() == old(sched).running()
                &&& final(sched).dispatcher().queues() == old(sched).dispatcher().queues()
            } else {
                let new = next.unwrap();
                &&& r == Some(Switch { from: me.tid, to: new.tid, to_sp: new.sp })
                &&& final(sched).running() == Some(Tcb { state: ThreadState::Running, ..new })
                &&& final(sched).dispatcher().queues() == put_queues(
                    rest,
                    Tcb { state: ThreadState::Ready, ..me },
                )
            }
        }),
{
    if preempt_cnt == 0 {
        sched.reschedule(ThreadState::Ready)
    } else {
        None
    }
}

/// A guard that keeps preemption off on a CPU while held.
pub struct PreemptGuard {
    _private: (),
}

impl PreemptGuard {
    /// Takes a guard, counting it in `cnt`.
    pub fn new(cnt: &mut u64) -> (r: Self)
        requires
            *old(cnt) < u64::MAX,
        ensures
            *final(cnt) == *old(cnt) + 1,
    {
        *cnt = *cnt + 1;
        PreemptGuard { _private: () }
    }

    /// Takes back a guard that was leaked.
    pub fn reclaim() -> (r: Self) {
        PreemptGuard { _private: () }
    }

    /// Leaks the guard: it stays counted.
    pub fn leak(self) {
    }

    /// Returns the number of guards held.
    pub fn cnt(cnt: &u64) -> (r: u64)
        ensures
            r == *cnt,
    {
        *cnt
    }

    /// Drops the guard, uncounting it.
    pub fn release(self, cnt: &mut u64)
        requires
            *old(cnt) > 0,
        ensures
            *final(cnt) == *old(cnt) - 1,
    {
        *cnt = *cnt - 1;
    }
}

/// The initial stack frame of a new thread, top of the stack last: six
/// zeroed callee-saved registers (r15, r14, r13, r12, rbx, rbp), the
/// return address `entry`, and an alignment slot.
pub open spec fn init_frame(entry: u64) -> Seq<u64> {
    seq![0u64, 0u64, 0u64, 0u64, 0u64, 0u64, entry, 0u64]
}

/// Writes the initial frame of a new thread, returning to `entry`, at the
/// top of `stack`. Returns the number of words written: the frame's length,
/// or zero, writing nothing, if the stack is too small.
pub fn write_init_stack(stack: &mut Vec<u64>, entry: u64) -> (r: usize)
    ensures
        old(stack)@.len() < 8 ==> r == 0 && final(stack)@ == old(stack)@,
        old(stack)@.len() >= 8 ==> r == 8 && final(stack)@ == old(stack)@.subrange(
            0,
            old(stack)@.len() - 8,
        ) + init_frame(entry),
{
    let frame: [u64; 8] = [0, 0, 0, 0, 0, 0, entry, 0];
    let len = stack.len();
    if len < 8 {
        return 0;
    }
    let mut i: usize = 0;
    while i < 8
        invariant
            stack@.len() == len,
            len == old(stack)@.len(),
            len >= 8,
            i <= 8,
            frame@ == init_frame(entry),
            forall|k: int|
                0 <= k < len ==> #[trigger] stack@[k] == if len - 8 <= k < len - 8 + i {
                    frame@[k - (len - 8)]
                } else {
                    old(stack)@[k]
                },
        decreases 8 - i,
    {
        stack.set(len - 8 + i, frame[i]);
        i = i + 1;
    }
    assert(stack@ =~= old(stack)@.subrange(0, len - 8) + init_frame(entry));
    8
}

/// Number of small pages of a thread block.
pub const THREAD_PAGE_CNT: u64 = 4;

/// Size of a thread block, which is also its alignment.
pub const THREAD_SIZE: u64 = 0x4000;

/// Size of a kernel stack: the thread block less its list link (two words)
/// and its control block (five words).
pub const KERNEL_STACK_SIZE: u64 = 16328;

/// Number of words of a kernel stack.
pub const KERNEL_STACK_ARRAY_LEN: usize = 2041;

/// The value at the head of a control block that tells a live thread from
/// an overrun stack.
pub const TCB_MAGIC: u64 = 0xBCDB_BAAA;

/// A kernel thread: its stack, at the start of its block, and its control
/// block.
pub struct KThread {
    base: u64,
    stack: Vec<u64>,
    magic: u64,
    main: u64,
    tcb: Tcb,
}

impl KThread {
    /// Address of the thread block.
    pub closed spec fn block_addr(&self) -> u64 {
        self.base
    }

    /// The words of the stack, lowest address first.
    pub closed spec fn stack_words(&self) -> Seq<u64> {
        self.stack@
    }

    /// The entry address of the thread's main function.
    pub closed spec fn main_addr(&self) -> u64 {
        self.main
    }

    /// The magic value of the control block.
    pub closed spec fn magic_value(&self) -> u64 {
        self.magic
    }

    /// The control block.
    pub closed spec fn control(&self) -> Tcb {
        self.tcb
    }

    /// Returns the control block.
    pub fn tcb(&self) -> (r: Tcb)
        ensures
            r == self.control(),
    {
        self.tcb
    }

    /// A new thread in the block at `base`, running `main`: its stack holds
    /// the initial frame returning to `entry`, its stack pointer is the
    /// frame's address, and it is ready with ID `tid`.
    pub fn new(base: u64, entry: u64, main: u64, cpu_id: u8, priority: u8, is_usr: bool, tid: ThreadId) -> (r: Self)
        requires
            base + THREAD_SIZE <= u64::MAX,
        ensures
            r.block_addr() == base,
            r.stack_words() == Seq::new((KERNEL_STACK_ARRAY_LEN - 8) as nat, |i: int| 0u64) + init_frame(entry),
            r.main_addr() == main,
            r.magic_value() == TCB_MAGIC,
            r.control() == (Tcb {
                tid,
                sp: (base + (KERNEL_STACK_ARRAY_LEN - 8) * 8) as u64,
                cpu_id,
                priority,
                is_usr,
                state: ThreadState::Ready,
            }),
    {
        let mut stack: Vec<u64> = Vec::new();
        while stack.len() < KERNEL_STACK_ARRAY_LEN
            invariant
                stack@.len() <= KERNEL_STACK_ARRAY_LEN,
                forall|i: int| 0 <= i < stack@.len() ==> #[trigger] stack@[i] == 0u64,
            decreases KERNEL_STACK_ARRAY_LEN - stack@.len(),
        {
            stack.push(0);
        }
        let ghost zeros = stack@;
        let stack_len = write_init_stack(&mut stack, entry);
        let sp = base + ((KERNEL_STACK_ARRAY_LEN - stack_len) as u64) * 8;
        proof {
            assert(zeros.subrange(0, (KERNEL_STACK_ARRAY_LEN - 8) as int) =~= Seq::new(
                (KERNEL_STACK_ARRAY_LEN - 8) as nat,
                |i: int| 0u64,
            ));
        }
        KThread {
            base,
            stack,
            magic: TCB_MAGIC,
            main,
            tcb: Tcb { tid, sp, cpu_id, priority, is_usr, state: ThreadState::Ready },
        }
    }

    /// Returns the address one past the top of the stack.
    pub fn stack_base(&self) -> (r: u64)
        requires
            self.block_addr() + THREAD_SIZE <= u64::MAX,
        ensures
            r == self.block_addr() + KERNEL_STACK_ARRAY_LEN * 8,
    {
        self.base + (KERNEL_STACK_ARRAY_LEN as u64) * 8
    }

    /// The block of the thread whose stack holds `sp`: the stack pointer
    /// rounded down to the block size.
    pub fn thread_of(sp: u64) -> (r: u64)
        ensures
            r == sp - sp % THREAD_SIZE,
    {
        assert(sp & !0x3FFFu64 == sp - sp % 0x4000) by (bit_vector);
        sp & !0x3FFFu64
    }
}

} // verus!
