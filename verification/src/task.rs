//! Per-task layout and the task table.
//!
//! Four compile-time task slots, each an 8 KiB user stack, a 64 KiB break
//! window, and an 8 KiB kernel stack, the stacks sitting on 4 KiB guards.
//! A task's trap frame lives at `kstack_top - 272` on its kernel stack; the
//! table records its address. Scheduling is round robin over Ready tasks:
//! a preempted or yielding task stays Ready and the next Ready task after
//! it (cyclically) runs; a task that is alone gets itself back.

use vstd::prelude::*;
use crate::csr::{SSTATUS_SPIE, SSTATUS_UXL_64};
use crate::trap::{FRAME_SIZE, TrapFrame};

verus! {

/// Compile-time task slots.
pub const MAX_TASKS: usize = 4;
/// One slot: user stack, break, kernel stack and two guards.
pub const TASK_RESERVE: usize = 88 * 1024;
pub const STACK: usize = 8 * 1024;
pub const BREAK: usize = 64 * 1024;
pub const GUARD: usize = 4 * 1024;
pub const PAGE_SIZE: usize = 4096;

/// RISC-V `x2` / `sp`.
pub const REG_SP: usize = 2;

/// `sstatus` a new task starts with: SPP = U (sret enters U-mode), SPIE = 1
/// (interrupts on in U), SIE = 0, FS = Off, UXL = 64.
pub const FABRICATED_SSTATUS: u64 = SSTATUS_SPIE | SSTATUS_UXL_64;

/// One task slot's linker addresses.
#[derive(Clone, Copy, Debug, PartialEq, Eq, Structural)]
pub struct Slot {
    pub ustack_guard: usize,
    pub ustack_bottom: usize,
    pub ustack_top: usize,
    pub brk_base: usize,
    pub brk_wall: usize,
    pub kstack_guard: usize,
    pub kstack_bottom: usize,
    pub kstack_top: usize,
}

/// The linker's user sections, task area and slots.
#[derive(Clone, Copy, Debug)]
pub struct UserLayout {
    pub utext: (usize, usize),
    pub urodata: (usize, usize),
    pub udata: (usize, usize),
    pub ubss: (usize, usize),
    pub tasks: (usize, usize),
    pub kernel_end: usize,
    pub heap_start: usize,
    pub slots: [Slot; 4],
}

/// What `check_layout` found wrong.
#[derive(Clone, Copy, Debug, PartialEq, Eq, Structural)]
pub enum LayoutError {
    /// A section or the task area does not start on a page.
    Unaligned,
    /// Sections out of order, or the kernel end is not the heap start.
    Order,
    /// The task area is not `MAX_TASKS * TASK_RESERVE` bytes.
    Reserve,
    /// Slot `id` has a wrong size or does not sit on its guards.
    Slot { id: usize },
}

/// Slot sizes and adjacency: stacks on their guards, the break right
/// above the user stack, the kernel guard right above the break.
pub open spec fn slot_ok(s: Slot) -> bool {
    &&& s.ustack_guard % PAGE_SIZE == 0
    &&& s.ustack_bottom == s.ustack_guard + GUARD
    &&& s.ustack_top == s.ustack_bottom + STACK
    &&& s.brk_base == s.ustack_top
    &&& s.brk_wall == s.brk_base + BREAK
    &&& s.kstack_guard == s.brk_wall
    &&& s.kstack_bottom == s.kstack_guard + GUARD
    &&& s.kstack_top == s.kstack_bottom + STACK
}

pub open spec fn sections_ordered(l: UserLayout) -> bool {
    &&& l.utext.0 <= l.utext.1 <= l.urodata.0 <= l.urodata.1 <= l.udata.0 <= l.udata.1
        <= l.ubss.0 <= l.ubss.1 <= l.tasks.0
    &&& l.tasks.0 < l.tasks.1 <= l.kernel_end
    &&& l.kernel_end == l.heap_start
}

pub open spec fn layout_verdict(l: UserLayout) -> Option<LayoutError> {
    if l.utext.0 % PAGE_SIZE != 0 || l.urodata.0 % PAGE_SIZE != 0 || l.udata.0 % PAGE_SIZE != 0
        || l.ubss.0 % PAGE_SIZE != 0 || l.tasks.0 % PAGE_SIZE != 0 {
        Some(LayoutError::Unaligned)
    } else if !sections_ordered(l) {
        Some(LayoutError::Order)
    } else if l.tasks.1 - l.tasks.0 != MAX_TASKS * TASK_RESERVE {
        Some(LayoutError::Reserve)
    } else if !slot_ok(l.slots[0]) {
        Some(LayoutError::Slot { id: 0 })
    } else if !slot_ok(l.slots[1]) {
        Some(LayoutError::Slot { id: 1 })
    } else if !slot_ok(l.slots[2]) {
        Some(LayoutError::Slot { id: 2 })
    } else if !slot_ok(l.slots[3]) {
        Some(LayoutError::Slot { id: 3 })
    } else {
        None
    }
}

/// The slot's sizes and adjacency.
pub fn check_slot(s: &Slot) -> (r: bool)
    ensures
        r == slot_ok(*s),
{
    s.ustack_guard % PAGE_SIZE == 0 && s.ustack_guard <= usize::MAX - GUARD && s.ustack_bottom
        == s.ustack_guard + GUARD && s.ustack_bottom <= usize::MAX - STACK && s.ustack_top
        == s.ustack_bottom + STACK && s.brk_base == s.ustack_top && s.brk_base <= usize::MAX
        - BREAK && s.brk_wall == s.brk_base + BREAK && s.kstack_guard == s.brk_wall
        && s.kstack_guard <= usize::MAX - GUARD && s.kstack_bottom == s.kstack_guard + GUARD
        && s.kstack_bottom <= usize::MAX - STACK && s.kstack_top == s.kstack_bottom + STACK
}

impl UserLayout {
    pub fn utext(&self) -> (r: (usize, usize))
        ensures
            r == self.utext,
    {
        self.utext
    }

    pub fn urodata(&self) -> (r: (usize, usize))
        ensures
            r == self.urodata,
    {
        self.urodata
    }

    pub fn udata(&self) -> (r: (usize, usize))
        ensures
            r == self.udata,
    {
        self.udata
    }

    pub fn ubss(&self) -> (r: (usize, usize))
        ensures
            r == self.ubss,
    {
        self.ubss
    }

    pub fn tasks_span(&self) -> (r: (usize, usize))
        ensures
            r == self.tasks,
    {
        self.tasks
    }

    /// The addresses of slot `id`.
    pub fn slot(&self, id: usize) -> (r: Slot)
        requires
            id < MAX_TASKS,
        ensures
            r == self.slots@[id as int],
    {
        self.slots[id]
    }

    /// The linker layout matches `MAX_TASKS` and the slot sizes: sections
    /// page-aligned and in order, the task area `MAX_TASKS * TASK_RESERVE`
    /// bytes, every slot laid out as `slot_ok` says.
    pub fn check_layout(&self) -> (r: Result<(), LayoutError>)
        ensures
            match layout_verdict(*self) {
                Some(e) => r == Err::<(), LayoutError>(e),
                None => r is Ok,
            },
    {
        if self.utext.0 % PAGE_SIZE != 0 || self.urodata.0 % PAGE_SIZE != 0 || self.udata.0
            % PAGE_SIZE != 0 || self.ubss.0 % PAGE_SIZE != 0 || self.tasks.0 % PAGE_SIZE != 0 {
            return Err(LayoutError::Unaligned);
        }
        if !(self.utext.0 <= self.utext.1 && self.utext.1 <= self.urodata.0 && self.urodata.0
            <= self.urodata.1 && self.urodata.1 <= self.udata.0 && self.udata.0 <= self.udata.1
            && self.udata.1 <= self.ubss.0 && self.ubss.0 <= self.ubss.1 && self.ubss.1
            <= self.tasks.0 && self.tasks.0 < self.tasks.1 && self.tasks.1 <= self.kernel_end
            && self.kernel_end == self.heap_start) {
            return Err(LayoutError::Order);
        }
        if self.tasks.1 - self.tasks.0 != MAX_TASKS * TASK_RESERVE {
            return Err(LayoutError::Reserve);
        }
        let mut id: usize = 0;
        while id < MAX_TASKS
            invariant
                id <= MAX_TASKS,
                forall|j: int| 0 <= j < id ==> slot_ok(#[trigger] self.slots@[j]),
                !(self.utext.0 % PAGE_SIZE != 0 || self.urodata.0 % PAGE_SIZE != 0 || self.udata.0
                    % PAGE_SIZE != 0 || self.ubss.0 % PAGE_SIZE != 0 || self.tasks.0 % PAGE_SIZE
                    != 0),
                sections_ordered(*self),
                self.tasks.1 - self.tasks.0 == MAX_TASKS * TASK_RESERVE,
            decreases MAX_TASKS - id,
        {
            if !check_slot(&self.slots[id]) {
                return Err(LayoutError::Slot { id });
            }
            id = id + 1;
        }
        Ok(())
    }
}

#[derive(Clone, Copy, Debug, PartialEq, Eq, Structural)]
pub enum State {
    Ready,
    Running,
    Exited,
}

/// Task control block. Register state lives in the trap frame at `frame`.
/// A switch counter after one more switch: it wraps at the top.
pub open spec fn wrap_inc(c: usize) -> usize {
    if c == usize::MAX {
        0
    } else {
        (c + 1) as usize
    }
}

/// The name a task state is printed under.
pub fn state_name(s: State) -> (r: &'static str)
    ensures
        s == State::Ready ==> r@ == "Ready"@,
        s == State::Running ==> r@ == "Running"@,
        s == State::Exited ==> r@ == "Exited"@,
{
    match s {
        State::Ready => "Ready",
        State::Running => "Running",
        State::Exited => "Exited",
    }
}

#[derive(Clone, Copy, Debug)]
pub struct Task {
    pub id: usize,
    pub state: State,
    /// Address of the task's trap frame, `kstack_top - FRAME_SIZE`.
    pub frame: usize,
    pub kstack_top: usize,
    pub ustack_top: usize,
    pub brk_base: usize,
    pub brk: usize,
    pub brk_wall: usize,
    pub exit_code: usize,
    pub writes: usize,
    pub yields: usize,
}

/// The task table: up to `MAX_TASKS` created tasks and the running one.
pub struct TaskTable {
    pub tasks: [Option<Task>; 4],
    pub current: Option<usize>,
    /// Switches from task 1 to task 2, and back.
    pub switch_12: usize,
    pub switch_21: usize,
}

/// Task `id` exists and is in state `s`.
pub open spec fn in_state(tasks: Seq<Option<Task>>, id: int, s: State) -> bool {
    tasks[id] matches Some(t) && t.state == s
}

/// The first Ready task after `id` in cyclic order (`id` itself last).
pub open spec fn next_ready(tasks: Seq<Option<Task>>, id: int) -> Option<int> {
    let cands = Seq::new(MAX_TASKS as nat, |step: int| (id + step + 1) % (MAX_TASKS as int));
    if exists|k: int| 0 <= k < MAX_TASKS && #[trigger] in_state(tasks, cands[k], State::Ready) {
        let k = choose|k: int|
            0 <= k < MAX_TASKS && #[trigger] in_state(tasks, cands[k], State::Ready) && forall|m: int|
                0 <= m < k ==> !#[trigger] in_state(tasks, cands[m], State::Ready);
        Some(cands[k])
    } else {
        None
    }
}

/// Every task sits in its own slot, and the running task, if any, is the
/// only one Running.
pub open spec fn table_wf(tasks: Seq<Option<Task>>, current: Option<usize>) -> bool {
    &&& tasks.len() == MAX_TASKS
    &&& forall|i: int| 0 <= i < MAX_TASKS ==> (#[trigger] tasks[i] matches Some(t) ==> t.id == i)
    &&& match current {
        Some(c) => c < MAX_TASKS && in_state(tasks, c as int, State::Running),
        None => true,
    }
    &&& forall|i: int|
        0 <= i < MAX_TASKS && #[trigger] in_state(tasks, i, State::Running) ==> current == Some(
            i as usize,
        )
}

proof fn lemma_wf_after(
    tasks: Seq<Option<Task>>,
    cur: Option<usize>,
    id: int,
    t: Task,
    cur2: Option<usize>,
)
    requires
        table_wf(tasks, cur),
        0 <= id < MAX_TASKS,
        t.id == id,
        t.state == State::Running ==> cur2 == Some(id as usize) && (cur is None || cur == Some(
            id as usize,
        )),
        t.state != State::Running ==> (cur2 == cur && cur != Some(id as usize)) || (cur2 is None
            && cur == Some(id as usize)),
    ensures
        table_wf(tasks.update(id, Some(t)), cur2),
{
    let t2 = tasks.update(id, Some(t));
    assert forall|i: int| 0 <= i < MAX_TASKS && #[trigger] in_state(t2, i, State::Running) implies cur2
        == Some(i as usize) by {
        if i != id {
            assert(in_state(tasks, i, State::Running));
        }
    }
}

impl TaskTable {
    pub open spec fn wf(&self) -> bool {
        table_wf(self.tasks@, self.current)
    }

    pub fn new() -> (t: TaskTable)
        ensures
            t.wf(),
            t.current is None,
            forall|i: int| 0 <= i < MAX_TASKS ==> t.tasks@[i] is None,
    {
        TaskTable { tasks: [None, None, None, None], current: None, switch_12: 0, switch_21: 0 }
    }

    /// Task `id`, which must have been created.
    pub fn get(&self, id: usize) -> (t: Task)
        requires
            id < MAX_TASKS,
            self.tasks@[id as int] is Some,
        ensures
            self.tasks@[id as int] == Some(t),
    {
        match self.tasks[id] {
            Some(t) => t,
            None => {
                assert(false);
                self.tasks[0].unwrap()
            },
        }
    }

    /// Record task `id` in slot `s`, Ready, entering at `entry`, and return
    /// the trap frame to write at `kstack_top - 272`: user `sp` at the
    /// stack top, `gp`/`tp` zero, `sepc` the entry, the fabricated
    /// `sstatus`.
    pub fn create(&mut self, id: usize, entry: usize, s: Slot) -> (f: TrapFrame)
        requires
            old(self).wf(),
            id < MAX_TASKS,
            old(self).tasks@[id as int] is None,
            s.kstack_top >= FRAME_SIZE,
            s.kstack_top - FRAME_SIZE >= s.kstack_bottom,
        ensures
            final(self).wf(),
            final(self).current == old(self).current,
            final(self).tasks@ == old(self).tasks@.update(
                id as int,
                Some(
                    Task {
                        id,
                        state: State::Ready,
                        frame: (s.kstack_top - FRAME_SIZE) as usize,
                        kstack_top: s.kstack_top,
                        ustack_top: s.ustack_top,
                        brk_base: s.brk_base,
                        brk: s.brk_base,
                        brk_wall: s.brk_wall,
                        exit_code: 0,
                        writes: 0,
                        yields: 0,
                    },
                ),
            ),
            f.x@ == Seq::new(32, |i: int| if i == REG_SP { s.ustack_top } else { 0usize }),
            f.sepc == entry,
            f.sstatus == FABRICATED_SSTATUS,
    {
        let mut x = [0usize; 32];
        x[REG_SP] = s.ustack_top;
        assert(x@ =~= Seq::new(32, |i: int| if i == REG_SP { s.ustack_top } else { 0usize }));
        let frame = s.kstack_top - FRAME_SIZE;
        proof {
            if self.current is Some {
                assert(in_state(self.tasks@, self.current->0 as int, State::Running));
            }
            lemma_wf_after(self.tasks@, self.current, id as int, Task {
                id,
                state: State::Ready,
                frame: frame,
                kstack_top: s.kstack_top,
                ustack_top: s.ustack_top,
                brk_base: s.brk_base,
                brk: s.brk_base,
                brk_wall: s.brk_wall,
                exit_code: 0,
                writes: 0,
                yields: 0,
            }, self.current);
        }
        self.tasks[id] = Some(
            Task {
                id,
                state: State::Ready,
                frame,
                kstack_top: s.kstack_top,
                ustack_top: s.ustack_top,
                brk_base: s.brk_base,
                brk: s.brk_base,
                brk_wall: s.brk_wall,
                exit_code: 0,
                writes: 0,
                yields: 0,
            },
        );
        TrapFrame { x, sepc: entry, sstatus: FABRICATED_SSTATUS }
    }

    /// Set a created task's state (the boot table parks unused slots as
    /// Exited). Not for the running task.
    pub fn set_state(&mut self, id: usize, s: State)
        requires
            old(self).wf(),
            id < MAX_TASKS,
            old(self).tasks@[id as int] is Some,
            old(self).current != Some(id),
            s != State::Running,
        ensures
            final(self).wf(),
            final(self).current == old(self).current,
            final(self).tasks@ == old(self).tasks@.update(
                id as int,
                Some(Task { state: s, ..old(self).tasks@[id as int]->0 }),
            ),
    {
        let mut t = self.get(id);
        t.state = s;
        proof {
            lemma_wf_after(self.tasks@, self.current, id as int, t, self.current);
        }
        self.tasks[id] = Some(t);
    }

    /// The first Ready task after `id`, cyclically, `id` itself last.
    pub fn next_ready_after(&self, id: usize) -> (r: Option<usize>)
        requires
            id < MAX_TASKS,
        ensures
            r matches Some(n) ==> next_ready(self.tasks@, id as int) == Some(n as int),
            r is None ==> next_ready(self.tasks@, id as int) is None,
    {
        let ghost cands = Seq::new(MAX_TASKS as nat, |step: int| (id + step + 1) % (MAX_TASKS as int));
        let mut step: usize = 1;
        while step <= MAX_TASKS
            invariant
                1 <= step <= MAX_TASKS + 1,
                id < MAX_TASKS,
                cands == Seq::new(MAX_TASKS as nat, |step: int| (id + step + 1) % (MAX_TASKS as int)),
                forall|m: int| 0 <= m < step - 1 ==> !#[trigger] in_state(self.tasks@, cands[m], State::Ready),
            decreases MAX_TASKS + 1 - step,
        {
            let cand = (id + step) % MAX_TASKS;
            assert(cand == cands[step - 1]);
            let ready = match self.tasks[cand] {
                Some(t) => t.state == State::Ready,
                None => false,
            };
            if ready {
                assert(in_state(self.tasks@, cands[step - 1], State::Ready));
                proof {
                    let k = choose|k: int|
                        0 <= k < MAX_TASKS && #[trigger] in_state(self.tasks@, cands[k], State::Ready)
                            && forall|m: int| 0 <= m < k ==> !#[trigger] in_state(self.tasks@, cands[m], State::Ready);
                    assert(k == step - 1) by {
                        if k < step - 1 {
                        } else if k > step - 1 {
                            assert(!in_state(self.tasks@, cands[step - 1], State::Ready));
                        }
                    }
                }
                return Some(cand);
            }
            step = step + 1;
        }
        None
    }

    fn record_switch(&mut self, from: usize, to: usize)
        ensures
            final(self).tasks == old(self).tasks,
            final(self).current == old(self).current,
            final(self).switch_12 == if from == 1 && to == 2 {
                wrap_inc(old(self).switch_12)
            } else {
                old(self).switch_12
            },
            final(self).switch_21 == if from == 2 && to == 1 {
                wrap_inc(old(self).switch_21)
            } else {
                old(self).switch_21
            },
    {
        if from == 1 && to == 2 {
            self.switch_12 = self.switch_12.wrapping_add(1);
        } else if from == 2 && to == 1 {
            self.switch_21 = self.switch_21.wrapping_add(1);
        }
    }

    /// Make `id` the running task and return its frame address.
    fn run(&mut self, id: usize) -> (frame: usize)
        requires
            old(self).wf(),
            id < MAX_TASKS,
            in_state(old(self).tasks@, id as int, State::Ready),
            old(self).current is None,
        ensures
            final(self).wf(),
            final(self).current == Some(id),
            final(self).tasks@ == old(self).tasks@.update(
                id as int,
                Some(Task { state: State::Running, ..old(self).tasks@[id as int]->0 }),
            ),
            frame == old(self).tasks@[id as int]->0.frame,
    {
        let mut t = self.get(id);
        t.state = State::Running;
        proof {
            lemma_wf_after(self.tasks@, self.current, id as int, t, Some(id));
        }
        self.tasks[id] = Some(t);
        self.current = Some(id);
        t.frame
    }

    /// The running task.
    pub fn current(&self) -> (t: Task)
        requires
            self.wf(),
            self.current is Some,
        ensures
            self.tasks@[self.current->0 as int] == Some(t),
            t.state == State::Running,
    {
        let id = self.current.unwrap();
        self.get(id)
    }

    pub fn has_current(&self) -> (r: bool)
        ensures
            r == self.current is Some,
    {
        self.current.is_some()
    }

    /// Enter task `id` for the first time: it becomes the running task.
    /// Returns its frame address.
    pub fn enter(&mut self, id: usize) -> (frame: usize)
        requires
            old(self).wf(),
            id < MAX_TASKS,
            in_state(old(self).tasks@, id as int, State::Ready),
            old(self).current is None,
        ensures
            final(self).wf(),
            final(self).current == Some(id),
            frame == old(self).tasks@[id as int]->0.frame,
            in_state(final(self).tasks@, id as int, State::Running),
    {
        self.run(id)
    }

    /// End the running task's slice (timer tick): it stays Ready and the
    /// next Ready task after it runs; if it is the only Ready task it runs
    /// again. `frame` must be the running task's frame. Returns the frame
    /// to resume.
    pub fn preempt(&mut self, frame: usize) -> (next: usize)
        requires
            old(self).wf(),
            old(self).current is Some,
            old(self).tasks@[old(self).current->0 as int]->0.frame == frame,
        ensures
            final(self).wf(),
            ({
                let cur = old(self).current->0;
                let ready = old(self).tasks@.update(
                    cur as int,
                    Some(Task { state: State::Ready, ..old(self).tasks@[cur as int]->0 }),
                );
                let n = match next_ready(ready, cur as int) {
                    Some(n) => n,
                    None => cur as int,
                };
                &&& final(self).current == Some(n as usize)
                &&& final(self).tasks@ == ready.update(
                    n,
                    Some(Task { state: State::Running, ..ready[n]->0 }),
                )
                &&& next == ready[n]->0.frame
            }),
    {
        let cur = self.current.unwrap();
        let mut t = self.get(cur);
        t.state = State::Ready;
        proof {
            lemma_wf_after(self.tasks@, self.current, cur as int, t, None);
        }
        self.tasks[cur] = Some(t);
        self.current = None;
        let next = match self.next_ready_after(cur) {
            Some(n) => n,
            None => cur,
        };
        proof {
            if next != cur {
                let ghost cands = Seq::new(MAX_TASKS as nat, |step: int| (cur + step + 1) % (MAX_TASKS as int));
                let k = choose|k: int|
                    0 <= k < MAX_TASKS && #[trigger] in_state(self.tasks@, cands[k], State::Ready)
                        && forall|m: int| 0 <= m < k ==> !#[trigger] in_state(self.tasks@, cands[m], State::Ready);
                assert(in_state(self.tasks@, cands[k], State::Ready));
            }
        }
        self.record_switch(cur, next);
        self.run(next)
    }

    /// `yield`: the same pick as a tick, counted. The caller has already
    /// advanced `sepc`.
    pub fn yield_cpu(&mut self, frame: usize) -> (next: usize)
        requires
            old(self).wf(),
            old(self).current is Some,
            old(self).tasks@[old(self).current->0 as int]->0.frame == frame,
            old(self).tasks@[old(self).current->0 as int]->0.yields < usize::MAX,
        ensures
            final(self).wf(),
            ({
                let cur = old(self).current->0;
                let t = old(self).tasks@[cur as int]->0;
                let ready = old(self).tasks@.update(
                    cur as int,
                    Some(Task { state: State::Ready, yields: (t.yields + 1) as usize, ..t }),
                );
                let n = match next_ready(ready, cur as int) {
                    Some(n) => n,
                    None => cur as int,
                };
                &&& final(self).current == Some(n as usize)
                &&& final(self).tasks@ == ready.update(
                    n,
                    Some(Task { state: State::Running, ..ready[n]->0 }),
                )
                &&& next == ready[n]->0.frame
            }),
            // The same pick, and the same frame, as a preemption from the
            // same state: the yield count plays no part in it.
            ({
                let cur = old(self).current->0;
                let plain = old(self).tasks@.update(
                    cur as int,
                    Some(Task { state: State::Ready, ..old(self).tasks@[cur as int]->0 }),
                );
                let n = match next_ready(plain, cur as int) {
                    Some(n) => n,
                    None => cur as int,
                };
                &&& final(self).current == Some(n as usize)
                &&& next == plain[n]->0.frame
            }),
    {
        proof {
            let cur = old(self).current->0;
            let t0 = old(self).tasks@[cur as int]->0;
            let plain = old(self).tasks@.update(cur as int, Some(Task { state: State::Ready, ..t0 }));
            let ready = old(self).tasks@.update(cur as int, Some(Task { state: State::Ready, yields: (t0.yields + 1) as usize, ..t0 }));
            assert forall|i: int| 0 <= i < MAX_TASKS implies #[trigger] in_state(plain, i, State::Ready) == in_state(ready, i, State::Ready) by {}
            lemma_next_ready_by_states(plain, ready, cur as int);
        }
        let cur = self.current.unwrap();
        let mut t = self.get(cur);
        t.yields = t.yields + 1;
        proof {
            lemma_wf_after(self.tasks@, self.current, cur as int, t, self.current);
        }
        self.tasks[cur] = Some(t);
        let ghost bumped = self.tasks@;
        let ghost t0 = old(self).tasks@[cur as int]->0;
        assert(bumped.update(cur as int, Some(Task { state: State::Ready, ..bumped[cur as int]->0 }))
            =~= old(self).tasks@.update(cur as int, Some(Task { state: State::Ready, yields: (t0.yields + 1) as usize, ..t0 })));
        self.preempt(frame)
    }

    /// After task `exited_id` left: run the next Ready task after it and
    /// return its frame, or `None` when no task is Ready (the scheduler
    /// then shuts down; there is no idle loop).
    pub fn after_exit(&mut self, exited_id: usize) -> (r: Option<usize>)
        requires
            old(self).wf(),
            old(self).current is None,
            exited_id < MAX_TASKS,
        ensures
            final(self).wf(),
            match next_ready(old(self).tasks@, exited_id as int) {
                Some(n) => {
                    &&& final(self).current == Some(n as usize)
                    &&& r == Some(old(self).tasks@[n]->0.frame)
                    &&& final(self).tasks@ == old(self).tasks@.update(
                        n,
                        Some(Task { state: State::Running, ..old(self).tasks@[n]->0 }),
                    )
                },
                None => r is None && final(self).tasks@ == old(self).tasks@ && final(self).current is None,
            },
    {
        match self.next_ready_after(exited_id) {
            Some(id) => {
                proof {
                    let ghost cands = Seq::new(MAX_TASKS as nat, |step: int| (exited_id + step + 1) % (MAX_TASKS as int));
                    let k = choose|k: int|
                        0 <= k < MAX_TASKS && #[trigger] in_state(self.tasks@, cands[k], State::Ready)
                            && forall|m: int| 0 <= m < k ==> !#[trigger] in_state(self.tasks@, cands[m], State::Ready);
                    assert(in_state(self.tasks@, cands[k], State::Ready));
                }
                self.record_switch(exited_id, id);
                Some(self.run(id))
            },
            None => None,
        }
    }

    /// Mark the running task Exited and drop it as current. Returns its id.
    pub fn mark_exited(&mut self) -> (id: usize)
        requires
            old(self).wf(),
            old(self).current is Some,
        ensures
            final(self).wf(),
            final(self).current is None,
            id == old(self).current->0,
            final(self).tasks@ == old(self).tasks@.update(
                id as int,
                Some(Task { state: State::Exited, ..old(self).tasks@[id as int]->0 }),
            ),
    {
        let id = self.current.unwrap();
        let mut t = self.get(id);
        t.state = State::Exited;
        proof {
            lemma_wf_after(self.tasks@, self.current, id as int, t, None);
        }
        self.tasks[id] = Some(t);
        self.current = None;
        id
    }

    /// Kill the running task after a U-mode fault and run the next Ready
    /// task: its frame, or `None` when none is left.
    pub fn kill_and_reschedule(&mut self) -> (r: Option<usize>)
        requires
            old(self).wf(),
            old(self).current is Some,
        ensures
            final(self).wf(),
            ({
                let id = old(self).current->0;
                let exited = old(self).tasks@.update(
                    id as int,
                    Some(Task { state: State::Exited, ..old(self).tasks@[id as int]->0 }),
                );
                match next_ready(exited, id as int) {
                    Some(n) => {
                        &&& final(self).current == Some(n as usize)
                        &&& r == Some(exited[n]->0.frame)
                        &&& final(self).tasks@ == exited.update(
                            n,
                            Some(Task { state: State::Running, ..exited[n]->0 }),
                        )
                    },
                    None => r is None && final(self).tasks@ == exited && final(self).current is None,
                }
            }),
    {
        let id = self.mark_exited();
        self.after_exit(id)
    }

    /// An unknown syscall kills the running task. Returns its id.
    pub fn kill_unknown_syscall(&mut self) -> (id: usize)
        requires
            old(self).wf(),
            old(self).current is Some,
        ensures
            final(self).wf(),
            final(self).current is None,
            id == old(self).current->0,
            in_state(final(self).tasks@, id as int, State::Exited),
            final(self).tasks@ == old(self).tasks@.update(
                id as int,
                Some(Task { state: State::Exited, ..old(self).tasks@[id as int]->0 }),
            ),
    {
        self.mark_exited()
    }

    /// An invalid user pointer kills the running task.
    pub fn kill_invalid_user_ptr(&mut self)
        requires
            old(self).wf(),
            old(self).current is Some,
        ensures
            final(self).wf(),
            final(self).current is None,
            in_state(final(self).tasks@, old(self).current->0 as int, State::Exited),
    {
        let _ = self.mark_exited();
    }

    /// Voluntary `exit(code)`: record the code, then as a kill.
    pub fn exit_current(&mut self, code: usize)
        requires
            old(self).wf(),
            old(self).current is Some,
        ensures
            final(self).wf(),
            final(self).current is None,
            ({
                let id = old(self).current->0 as int;
                &&& in_state(final(self).tasks@, id, State::Exited)
                &&& final(self).tasks@[id]->0.exit_code == code
            }),
    {
        let cur = self.current.unwrap();
        let mut t = self.get(cur);
        t.exit_code = code;
        proof {
            lemma_wf_after(self.tasks@, self.current, cur as int, t, self.current);
        }
        self.tasks[cur] = Some(t);
        let _ = self.mark_exited();
    }
}

/// Round robin: the pick after `id` is a Ready task, no Ready task lies
/// strictly between `id` and it in cyclic order, and there is no pick
/// exactly when no task is Ready. An Exited task is never picked.
pub proof fn lemma_next_ready(tasks: Seq<Option<Task>>, id: int)
    requires
        0 <= id < MAX_TASKS,
    ensures
        next_ready(tasks, id) is None <==> forall|i: int| 0 <= i < MAX_TASKS ==> !#[trigger] in_state(tasks, i, State::Ready),
        next_ready(tasks, id) matches Some(n) ==> {
            &&& 0 <= n < MAX_TASKS
            &&& in_state(tasks, n, State::Ready)
            &&& forall|k: int| 0 < k < MAX_TASKS && #[trigger] ((id + k) % (MAX_TASKS as int)) != n && in_state(tasks, (id + k) % (MAX_TASKS as int), State::Ready)
                ==> (n - id + MAX_TASKS) % (MAX_TASKS as int) < k
        },
{
    let cands = Seq::new(MAX_TASKS as nat, |step: int| (id + step + 1) % (MAX_TASKS as int));
    assert forall|i: int| 0 <= i < MAX_TASKS implies #[trigger] cands[(i - id - 1 + MAX_TASKS) % (MAX_TASKS as int)] == i by {}
    if exists|k: int| 0 <= k < MAX_TASKS && #[trigger] in_state(tasks, cands[k], State::Ready) {
        assert(exists|k: int| 0 <= k < MAX_TASKS && #[trigger] in_state(tasks, cands[k], State::Ready)
            && forall|j: int| 0 <= j < k ==> !#[trigger] in_state(tasks, cands[j], State::Ready)) by {
            if in_state(tasks, cands[0], State::Ready) {
                assert(forall|j: int| 0 <= j < 0 ==> !#[trigger] in_state(tasks, cands[j], State::Ready));
            } else if in_state(tasks, cands[1], State::Ready) {
                assert(forall|j: int| 0 <= j < 1 ==> !#[trigger] in_state(tasks, cands[j], State::Ready));
            } else if in_state(tasks, cands[2], State::Ready) {
                assert(forall|j: int| 0 <= j < 2 ==> !#[trigger] in_state(tasks, cands[j], State::Ready));
            } else {
                assert(in_state(tasks, cands[3], State::Ready));
                assert(forall|j: int| 0 <= j < 3 ==> !#[trigger] in_state(tasks, cands[j], State::Ready));
            }
        }
        let k = choose|k: int|
            0 <= k < MAX_TASKS && #[trigger] in_state(tasks, cands[k], State::Ready) && forall|j: int|
                0 <= j < k ==> !#[trigger] in_state(tasks, cands[j], State::Ready);
        assert(next_ready(tasks, id) == Some(cands[k]));
        let n = cands[k];
        assert forall|kk: int| 0 < kk < MAX_TASKS && #[trigger] ((id + kk) % (MAX_TASKS as int)) != n && in_state(tasks, (id + kk) % (MAX_TASKS as int), State::Ready)
            implies (n - id + MAX_TASKS) % (MAX_TASKS as int) < kk by {
            assert(cands[kk - 1] == (id + kk) % (MAX_TASKS as int));
            assert((n - id + MAX_TASKS) % (MAX_TASKS as int) == k + 1);
            if kk - 1 < k {
                assert(!in_state(tasks, cands[kk - 1], State::Ready));
            }
        }
    } else {
        assert forall|i: int| 0 <= i < MAX_TASKS implies !#[trigger] in_state(tasks, i, State::Ready) by {
            let j = (i - id - 1 + MAX_TASKS) % (MAX_TASKS as int);
            assert(cands[j] == i);
        }
    }
}

/// Which task runs next depends only on which tasks are Ready.
pub proof fn lemma_next_ready_by_states(a: Seq<Option<Task>>, b: Seq<Option<Task>>, id: int)
    requires
        0 <= id < MAX_TASKS,
        forall|i: int| 0 <= i < MAX_TASKS ==> #[trigger] in_state(a, i, State::Ready) == in_state(b, i, State::Ready),
    ensures
        next_ready(a, id) == next_ready(b, id),
{
    let cands = Seq::new(MAX_TASKS as nat, |step: int| (id + step + 1) % (MAX_TASKS as int));
    assert forall|k: int| 0 <= k < MAX_TASKS implies #[trigger] in_state(a, cands[k], State::Ready) == in_state(b, cands[k], State::Ready) by {
        assert(0 <= cands[k] < MAX_TASKS);
    }
    if exists|k: int| 0 <= k < MAX_TASKS && #[trigger] in_state(a, cands[k], State::Ready) {
        let w = choose|k: int| 0 <= k < MAX_TASKS && #[trigger] in_state(a, cands[k], State::Ready);
        assert(in_state(b, cands[w], State::Ready));
        lemma_next_ready(a, id);
        lemma_next_ready(b, id);
        let ka = choose|k: int|
            0 <= k < MAX_TASKS && #[trigger] in_state(a, cands[k], State::Ready) && forall|m: int|
                0 <= m < k ==> !#[trigger] in_state(a, cands[m], State::Ready);
        let kb = choose|k: int|
            0 <= k < MAX_TASKS && #[trigger] in_state(b, cands[k], State::Ready) && forall|m: int|
                0 <= m < k ==> !#[trigger] in_state(b, cands[m], State::Ready);
        // Some k satisfies each predicate: the least Ready candidate.
        assert(exists|k: int| 0 <= k < MAX_TASKS && #[trigger] in_state(a, cands[k], State::Ready) && forall|m: int|
            0 <= m < k ==> !#[trigger] in_state(a, cands[m], State::Ready)) by {
            if in_state(a, cands[0], State::Ready) {
                assert(forall|m: int| 0 <= m < 0 ==> !#[trigger] in_state(a, cands[m], State::Ready));
            } else if in_state(a, cands[1], State::Ready) {
                assert(forall|m: int| 0 <= m < 1 ==> !#[trigger] in_state(a, cands[m], State::Ready));
            } else if in_state(a, cands[2], State::Ready) {
                assert(forall|m: int| 0 <= m < 2 ==> !#[trigger] in_state(a, cands[m], State::Ready));
            } else {
                assert(in_state(a, cands[3], State::Ready));
                assert(forall|m: int| 0 <= m < 3 ==> !#[trigger] in_state(a, cands[m], State::Ready));
            }
        }
        assert(0 <= ka < MAX_TASKS && in_state(a, cands[ka], State::Ready));
        assert(in_state(b, cands[ka], State::Ready));
        assert(forall|m: int| 0 <= m < ka ==> !#[trigger] in_state(b, cands[m], State::Ready));
        assert(0 <= kb < MAX_TASKS && in_state(b, cands[kb], State::Ready));
        if ka < kb {
            assert(!in_state(b, cands[ka], State::Ready));
        } else if kb < ka {
            assert(!in_state(a, cands[kb], State::Ready));
        }
    } else {
        if exists|k: int| 0 <= k < MAX_TASKS && #[trigger] in_state(b, cands[k], State::Ready) {
            let w = choose|k: int| 0 <= k < MAX_TASKS && #[trigger] in_state(b, cands[k], State::Ready);
            assert(in_state(a, cands[w], State::Ready));
        }
    }
}

/// A task that is the only Ready one after being preempted runs again.
pub proof fn lemma_lone_task_keeps_cpu(tasks: Seq<Option<Task>>, cur: int)
    requires
        0 <= cur < MAX_TASKS,
        in_state(tasks, cur, State::Ready),
        forall|i: int| 0 <= i < MAX_TASKS && i != cur ==> !#[trigger] in_state(tasks, i, State::Ready),
    ensures
        next_ready(tasks, cur) == Some(cur),
{
    lemma_next_ready(tasks, cur);
    let n = next_ready(tasks, cur)->0;
    assert(n == cur);
}

/// The frame accounting checked just before the first `sret` into U-mode:
/// exactly `want_tables` page-table frames, and every held frame either a
/// table or one of the `leftover` self-test frames.
pub fn frames_accounted(total: usize, free: usize, tables: usize, leftover: usize, want_tables: usize) -> (r: bool)
    ensures
        r == (free <= total && tables == want_tables && total - free == tables + leftover),
{
    free <= total && tables == want_tables && tables <= usize::MAX - leftover && total - free == tables + leftover
}

} // verus!
