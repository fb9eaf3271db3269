use lib::syscall::{from_ecall, Ecall, SYS_EXIT, SYS_WRITE, SYS_YIELD};
use lib::task::{
    check_slot, state_name, frames_accounted, LayoutError, Slot, State, TaskTable, UserLayout, BREAK,
    FABRICATED_SSTATUS, GUARD, MAX_TASKS, REG_SP, STACK, TASK_RESERVE,
};
use lib::trap::{
    classify, install, installed, instruction_width, page_fault_name, skip_breakpoint, StvecError,
    TrapFrame, TrapKind, FRAME_SIZE,
};
use lib::uaccess::{classify as classify_ptr, copy_from_user, copy_to_user, user_range_ok, Access, UserPtrError, COPY_MAX};

const TASKS_LO: usize = 0x8030_4000;

fn slot_at(i: usize) -> Slot {
    let base = TASKS_LO + i * TASK_RESERVE;
    Slot {
        ustack_guard: base,
        ustack_bottom: base + GUARD,
        ustack_top: base + GUARD + STACK,
        brk_base: base + GUARD + STACK,
        brk_wall: base + GUARD + STACK + BREAK,
        kstack_guard: base + GUARD + STACK + BREAK,
        kstack_bottom: base + 2 * GUARD + STACK + BREAK,
        kstack_top: base + 2 * GUARD + 2 * STACK + BREAK,
    }
}

fn layout() -> UserLayout {
    let hi = TASKS_LO + MAX_TASKS * TASK_RESERVE;
    UserLayout {
        utext: (0x8030_0000, 0x8030_0800),
        urodata: (0x8030_1000, 0x8030_1100),
        udata: (0x8030_2000, 0x8030_2040),
        ubss: (0x8030_3000, 0x8030_3100),
        tasks: (TASKS_LO, hi),
        kernel_end: hi,
        heap_start: hi,
        slots: [slot_at(0), slot_at(1), slot_at(2), slot_at(3)],
    }
}

#[test]
fn layout_is_accepted() {
    let l = layout();
    assert!(l.check_layout().is_ok());
    for i in 0..MAX_TASKS {
        assert!(check_slot(&l.slot(i)));
    }
    assert_eq!(l.tasks_span(), (TASKS_LO, TASKS_LO + 4 * TASK_RESERVE));
}

#[test]
fn layout_errors() {
    let mut l = layout();
    l.urodata.0 += 8;
    assert!(matches!(l.check_layout(), Err(LayoutError::Unaligned)));

    let mut l = layout();
    l.heap_start += 4096;
    assert!(matches!(l.check_layout(), Err(LayoutError::Order)));

    let mut l = layout();
    l.tasks.1 -= 4096;
    l.kernel_end -= 4096;
    l.heap_start -= 4096;
    assert!(matches!(l.check_layout(), Err(LayoutError::Reserve)));

    let mut l = layout();
    l.slots[2].brk_wall += 4096;
    assert!(matches!(l.check_layout(), Err(LayoutError::Slot { id: 2 })));
    assert!(!check_slot(&l.slots[2]));
}

fn two_tasks() -> TaskTable {
    let l = layout();
    let mut t = TaskTable::new();
    let f0 = t.create(0, 0x8030_0000, l.slot(0));
    assert_eq!(f0.sepc, 0x8030_0000);
    assert_eq!(f0.x[REG_SP], l.slot(0).ustack_top);
    assert_eq!(f0.sstatus, FABRICATED_SSTATUS);
    t.create(1, 0x8030_0040, l.slot(1));
    t
}

#[test]
fn created_task_fields() {
    let t = two_tasks();
    let k = t.get(1);
    let s = slot_at(1);
    assert!(k.state == State::Ready);
    assert_eq!(k.frame, s.kstack_top - FRAME_SIZE);
    assert_eq!(k.brk, s.brk_base);
    assert_eq!(k.brk_wall, s.brk_wall);
    assert!(!t.has_current());
}

#[test]
fn round_robin_preemption() {
    let mut t = two_tasks();
    let f0 = t.get(0).frame;
    let f1 = t.get(1).frame;
    assert_eq!(t.enter(0), f0);
    assert_eq!(t.current().id, 0);
    assert_eq!(t.preempt(f0), f1);
    assert_eq!(t.current().id, 1);
    assert!(t.get(0).state == State::Ready);
    assert_eq!(t.preempt(f1), f0);
    assert_eq!(t.current().id, 0);
}

#[test]
fn lone_task_keeps_cpu() {
    let l = layout();
    let mut t = TaskTable::new();
    t.create(2, 0x8030_0000, l.slot(2));
    let f = t.enter(2);
    assert_eq!(t.preempt(f), f);
    assert_eq!(t.current().id, 2);
}

#[test]
fn yield_counts_and_switches() {
    let mut t = two_tasks();
    let f0 = t.enter(0);
    let f1 = t.yield_cpu(f0);
    assert_eq!(f1, t.get(1).frame);
    assert_eq!(t.get(0).yields, 1);
    assert!(t.get(0).state == State::Ready);
}

#[test]
fn next_ready_wraps_around() {
    let mut t = two_tasks();
    assert_eq!(t.next_ready_after(1), Some(0));
    assert_eq!(t.next_ready_after(3), Some(0));
    assert_eq!(t.next_ready_after(0), Some(1));
    t.set_state(1, State::Exited);
    assert_eq!(t.next_ready_after(0), Some(0));
    t.set_state(0, State::Exited);
    assert_eq!(t.next_ready_after(0), None);
}

#[test]
fn exit_then_next_runs() {
    let mut t = two_tasks();
    t.enter(0);
    t.exit_current(7);
    assert!(!t.has_current());
    assert!(t.get(0).state == State::Exited);
    assert_eq!(t.get(0).exit_code, 7);
    let next = t.after_exit(0);
    assert_eq!(next, Some(t.get(1).frame));
    assert_eq!(t.current().id, 1);
    t.exit_current(0);
    assert_eq!(t.after_exit(1), None);
}

#[test]
fn kill_paths() {
    let mut t = two_tasks();
    t.enter(1);
    assert_eq!(t.kill_unknown_syscall(), 1);
    assert!(t.get(1).state == State::Exited);
    assert!(!t.has_current());

    let mut t = two_tasks();
    t.enter(0);
    let next = t.kill_and_reschedule();
    assert_eq!(next, Some(t.get(1).frame));
    assert!(t.get(0).state == State::Exited);

    let mut t = two_tasks();
    t.enter(0);
    t.kill_invalid_user_ptr();
    assert!(t.get(0).state == State::Exited);
    assert!(!t.has_current());
}

#[test]
fn frame_accounting_check() {
    assert!(frames_accounted(100, 90, 8, 2, 8));
    assert!(!frames_accounted(100, 90, 7, 2, 8));
    assert!(!frames_accounted(100, 91, 8, 2, 8));
    assert!(!frames_accounted(10, 11, 0, 0, 0));
}

#[test]
fn user_pointers() {
    let l = layout();
    let t = two_tasks().get(0);
    let s = l.slot(0);
    assert!(user_range_ok(&l, &t, s.ustack_bottom, 16, Access::Write));
    assert!(user_range_ok(&l, &t, s.ustack_top - 16, 16, Access::Write));
    assert!(!user_range_ok(&l, &t, s.ustack_top - 8, 16, Access::Write));
    assert!(user_range_ok(&l, &t, 0x8030_1000, 8, Access::Read));
    assert!(!user_range_ok(&l, &t, 0x8030_1000, 8, Access::Write));
    assert!(user_range_ok(&l, &t, 0x8030_2000, 0x40, Access::Write));
    assert!(!user_range_ok(&l, &t, 0x8030_0000, 4, Access::Read));
    assert!(!user_range_ok(&l, &t, usize::MAX - 2, 8, Access::Read));
    // Task 1's stack is not task 0's.
    assert!(!user_range_ok(&l, &t, l.slot(1).ustack_bottom, 8, Access::Read));
}

#[test]
fn user_pointer_errors() {
    let l = layout();
    let t = two_tasks().get(0);
    let s = l.slot(0);
    assert!(classify_ptr(&l, &t, s.ustack_bottom, 8, Access::Read).is_ok());
    assert!(matches!(
        classify_ptr(&l, &t, s.ustack_top - 8, 16, Access::Read),
        Err(UserPtrError::SpansPastInterval)
    ));
    assert!(matches!(
        classify_ptr(&l, &t, 0x1000, 8, Access::Read),
        Err(UserPtrError::NotInUserInterval)
    ));
    assert!(matches!(
        classify_ptr(&l, &t, 0x8030_1000, 8, Access::Write),
        Err(UserPtrError::NotInUserInterval)
    ));
}

#[test]
fn user_copies_are_capped() {
    let l = layout();
    let t = two_tasks().get(0);
    let s = l.slot(0);
    assert_eq!(copy_from_user(&l, &t, s.ustack_bottom, 100), Ok(100));
    assert_eq!(copy_from_user(&l, &t, s.ustack_bottom, 0), Ok(0));
    assert_eq!(copy_from_user(&l, &t, s.ustack_bottom, STACK + 10), Ok(COPY_MAX));
    assert_eq!(copy_to_user(&l, &t, s.ustack_bottom, 64), Ok(64));
    assert_eq!(copy_to_user(&l, &t, 0x8030_1000, 4), Err(UserPtrError::NotInUserInterval));
}

#[test]
fn trap_classification() {
    assert!(classify(0x8000_0000_0000_0005) == TrapKind::Timer);
    assert!(classify(8) == TrapKind::EcallU);
    assert!(classify(3) == TrapKind::Breakpoint);
    assert!(classify(13) == TrapKind::PageFault { code: 13 });
    assert!(classify(0x8000_0000_0000_0009) == TrapKind::Unknown { interrupt: true, code: 9 });
    assert!(classify(2) == TrapKind::Unknown { interrupt: false, code: 2 });
    assert_eq!(page_fault_name(12), "instruction page fault");
    assert_eq!(page_fault_name(13), "load page fault");
    assert_eq!(page_fault_name(15), "store page fault");
    assert_eq!(page_fault_name(14), "page fault");
}

#[test]
fn breakpoint_skips_instruction() {
    assert_eq!(instruction_width(0x0073), 4);
    assert_eq!(instruction_width(0x9002), 2);
    let mut f = TrapFrame { x: [0; 32], sepc: 0x8020_0000, sstatus: 0 };
    skip_breakpoint(&mut f, 0x9002);
    assert_eq!(f.sepc, 0x8020_0002);
    skip_breakpoint(&mut f, 0x0073);
    assert_eq!(f.sepc, 0x8020_0006);
}

#[test]
fn stvec_install() {
    assert_eq!(install(0x8020_0100), Ok(0x8020_0100));
    assert_eq!(install(0x8020_0102), Err(StvecError::Misaligned { mode: 2 }));
    assert!(installed(0x8020_0100, 0x8020_0100));
    assert!(!installed(0x8020_0100, 0x8020_0104));
}

#[test]
fn ecall_dispatch() {
    let mut t = two_tasks();
    t.enter(1);
    let mut f = TrapFrame { x: [0; 32], sepc: 0x1000, sstatus: 0 };
    f.x[17] = SYS_WRITE;
    f.x[10] = 99;
    assert!(from_ecall(&mut f, &mut t) == Ecall::Handled { num: SYS_WRITE });
    assert_eq!(f.sepc, 0x1004);
    assert_eq!(f.a0(), 0);
    assert_eq!(f.a1(), SYS_WRITE);
    assert_eq!(t.current().id, 1);

    for n in [SYS_EXIT, SYS_YIELD] {
        let mut h = TrapFrame { x: [0; 32], sepc: 0, sstatus: 0 };
        h.x[17] = n;
        assert!(from_ecall(&mut h, &mut t) == Ecall::Handled { num: n });
    }

    let mut g = TrapFrame { x: [0; 32], sepc: 0x2000, sstatus: 0 };
    g.x[17] = 99;
    assert!(from_ecall(&mut g, &mut t) == Ecall::Unknown { num: 99, killed: 1 });
    assert_eq!(g.sepc, 0x2000);
    assert!(!t.has_current());
    assert!(t.get(1).state == State::Exited);
    assert!(t.get(0).state == State::Ready);
}

#[test]
fn known_ecall_needs_no_running_task() {
    let mut t = TaskTable::new();
    let mut f = TrapFrame { x: [0; 32], sepc: 8, sstatus: 0 };
    f.x[17] = SYS_YIELD;
    assert!(from_ecall(&mut f, &mut t) == Ecall::Handled { num: SYS_YIELD });
    assert_eq!(f.sepc, 12);
}

#[test]
fn retval_sets_a0_a1() {
    let mut f = TrapFrame { x: [0; 32], sepc: 0, sstatus: 0 };
    f.set_retval(-2, 5);
    assert_eq!(f.a0(), (-2isize) as usize);
    assert_eq!(f.a1(), 5);
}

#[test]
fn state_names() {
    assert_eq!(state_name(State::Ready), "Ready");
    assert_eq!(state_name(State::Running), "Running");
    assert_eq!(state_name(State::Exited), "Exited");
}

#[test]
fn yield_picks_what_a_tick_picks() {
    let l = layout();
    let mut a = TaskTable::new();
    for i in 0..3 {
        a.create(i, 0x8030_0000 + 0x40 * i, l.slot(i));
    }
    let mut b = TaskTable::new();
    for i in 0..3 {
        b.create(i, 0x8030_0000 + 0x40 * i, l.slot(i));
    }
    let fa = a.enter(1);
    let fb = b.enter(1);
    let ya = a.yield_cpu(fa);
    let pb = b.preempt(fb);
    assert_eq!(ya, pb);
    assert_eq!(a.current().id, b.current().id);
    assert_eq!(a.get(1).yields, b.get(1).yields + 1);
    assert_eq!(a.current().id, 2);
}
