//! Boot-to-first-HTTP-byte phase timestamps.
//!
//! One `rdtime` stamp per named phase, first stamp wins. They are printed
//! once, after the response is on the wire, in the order they happened
//! (array order is not time order).

use vstd::prelude::*;

verus! {

pub const N: usize = 22;
pub const START: usize = 0;
pub const STAMP_A: usize = 1;
pub const STAMP_B: usize = 2;
pub const STVEC: usize = 3;
pub const FRAME_INIT: usize = 4;
pub const TASK_INIT: usize = 5;
pub const PAGE_BUILD: usize = 6;
pub const PAGE_VERIFY: usize = 7;
pub const ACTIVATE: usize = 8;
pub const VIRTQ_INIT: usize = 9;
pub const DRIVER_OK: usize = 10;
pub const FIRST_RX: usize = 11;
pub const SERVING_READY: usize = 12;
pub const NET_INIT_DONE: usize = 13;
pub const HEAP_INIT: usize = 14;
pub const ACCOUNTING: usize = 15;
pub const FREEZE: usize = 16;
pub const SRET: usize = 17;
pub const SYN_RX: usize = 18;
pub const ESTABLISHED: usize = 19;
pub const E3G: usize = 20;
pub const E3G_DOORBELL: usize = 21;

/// The stamps and whether they have been printed. A stamp of 0 is unset.
pub struct Phases {
    pub stamps: [usize; 22],
    pub printed: bool,
}

/// `order` lists indices whose stamps never decrease.
pub open spec fn sorted_by_stamp(stamps: Seq<usize>, order: Seq<usize>) -> bool {
    forall|a: int, b: int|
        0 <= a < b < order.len() ==> before(stamps, order[a], order[b])
}

/// Phase `x` is reported before phase `y`: an earlier stamp, or the same
/// stamp and a lower index.
pub open spec fn before(stamps: Seq<usize>, x: usize, y: usize) -> bool {
    stamps[x as int] < stamps[y as int] || (stamps[x as int] == stamps[y as int] && x < y)
}

impl Phases {
    pub fn new() -> (p: Phases)
        ensures
            forall|i: int| 0 <= i < N ==> p.stamps@[i] == 0,
            !p.printed,
    {
        Phases { stamps: [0; 22], printed: false }
    }

    /// Record `now` for phase `i` unless it is already stamped.
    pub fn stamp(&mut self, i: usize, now: usize)
        requires
            i < N,
        ensures
            old(self).stamps@[i as int] == 0 ==> final(self).stamps@ == old(self).stamps@.update(
                i as int,
                now,
            ),
            old(self).stamps@[i as int] != 0 ==> final(self).stamps@ == old(self).stamps@,
            final(self).printed == old(self).printed,
    {
        if self.stamps[i] == 0 {
            self.stamps[i] = now;
        }
    }

    pub fn get(&self, i: usize) -> (r: usize)
        requires
            i < N,
        ensures
            r == self.stamps@[i as int],
    {
        self.stamps[i]
    }

    /// The stamped phases, earliest first; equal stamps keep index order
    /// (insertion sort by stamp).
    pub fn order_by_time(&self) -> (order: Vec<usize>)
        ensures
            sorted_by_stamp(self.stamps@, order@),
            order@.no_duplicates(),
            forall|k: int| 0 <= k < order@.len() ==> order@[k] < N && self.stamps@[order@[k] as int] != 0,
            forall|i: int| 0 <= i < N && self.stamps@[i] != 0 ==> order@.contains(i as usize),
    {
        let mut order: Vec<usize> = Vec::new();
        let mut i: usize = 0;
        while i < N
            invariant
                i <= N,
                order@.no_duplicates(),
                forall|k: int| 0 <= k < order@.len() ==> order@[k] < i && self.stamps@[order@[k] as int] != 0,
                forall|j: int| 0 <= j < i && self.stamps@[j] != 0 ==> order@.contains(j as usize),
            decreases N - i,
        {
            let ghost before = order@;
            if self.stamps[i] != 0 {
                order.push(i);
                assert(order@.last() == i);
                assert forall|j: int| 0 <= j < i && self.stamps@[j] != 0 implies order@.contains(j as usize) by {
                    let w = choose|w: int| 0 <= w < before.len() && before[w] == j as usize;
                    assert(order@[w] == j as usize);
                }
            }
            i = i + 1;
        }
        let n = order.len();
        if n <= 1 {
            return order;
        }
        let mut i: usize = 1;
        while i < n
            invariant
                n == order@.len(),
                1 <= i <= n,
                order@.no_duplicates(),
                forall|k: int| 0 <= k < order@.len() ==> order@[k] < N && self.stamps@[order@[k] as int] != 0,
                forall|j: int| 0 <= j < N && self.stamps@[j] != 0 ==> order@.contains(j as usize),
                sorted_by_stamp(self.stamps@, order@.take(i as int)),
            decreases n - i,
        {
            proof {
                assert forall|a: int, b: int| 0 <= a < b < i implies before(self.stamps@, order@[a], order@[b]) by {
                    assert(order@.take(i as int)[a] == order@[a]);
                    assert(order@.take(i as int)[b] == order@[b]);
                }
            }
            let mut j = i;
            while j > 0 && (self.stamps[order[j]] < self.stamps[order[j - 1]] || (self.stamps[order[j]]
                == self.stamps[order[j - 1]] && order[j] < order[j - 1]))
                invariant
                    n == order@.len(),
                    i < n,
                    j <= i,
                    order@.no_duplicates(),
                    forall|k: int| 0 <= k < order@.len() ==> order@[k] < N && self.stamps@[order@[k] as int] != 0,
                    forall|q: int| 0 <= q < N && self.stamps@[q] != 0 ==> order@.contains(q as usize),
                    forall|a: int, b: int|
                        0 <= a < b <= i && b != j ==> before(self.stamps@, order@[a], order@[b]),
                    forall|a: int| j < a <= i ==> before(self.stamps@, order@[j as int], order@[a]),
                decreases j,
            {
                let x = order[j];
                let y = order[j - 1];
                let ghost before = order@;
                order.set(j, y);
                order.set(j - 1, x);
                proof {
                    assert(order@ =~= before.update(j as int, y).update(j - 1, x));
                    assert forall|q: int| 0 <= q < N && self.stamps@[q] != 0 implies order@.contains(q as usize) by {
                        let w = choose|w: int| 0 <= w < before.len() && before[w] == q as usize;
                        if w == j {
                            assert(order@[j - 1] == q as usize);
                        } else if w == j - 1 {
                            assert(order@[j as int] == q as usize);
                        } else {
                            assert(order@[w] == q as usize);
                        }
                    }
                    assert forall|a: int, b: int| 0 <= a < b < order@.len() implies order@[a] != order@[b] by {
                        let pa = if a == j { j - 1 } else if a == j - 1 { j as int } else { a };
                        let pb = if b == j { j - 1 } else if b == j - 1 { j as int } else { b };
                        assert(order@[a] == before[pa]);
                        assert(order@[b] == before[pb]);
                    }
                }
                j = j - 1;
            }
            proof {
                let t = order@.take(i + 1);
                assert forall|a: int, b: int| 0 <= a < b < i + 1 implies before(self.stamps@, #[trigger] t[a], #[trigger] t[b]) by {
                    assert(order@.take(i + 1)[a] == order@[a]);
                    assert(order@.take(i + 1)[b] == order@[b]);
                    if b == j && a < j - 1 {
                        assert(before(self.stamps@, order@[a], order@[j - 1]));
                    }
                }
            }
            i = i + 1;
        }
        assert(order@.take(n as int) =~= order@);
        order
    }

    /// Whether to print now: once, and only after the response phase is
    /// stamped. Marks the stamps printed.
    pub fn print_after_response(&mut self) -> (r: bool)
        ensures
            r == (!old(self).printed && old(self).stamps@[E3G as int] != 0),
            final(self).printed == (old(self).printed || r),
            final(self).stamps@ == old(self).stamps@,
    {
        if self.printed {
            return false;
        }
        if self.stamps[E3G] == 0 {
            return false;
        }
        self.printed = true;
        true
    }
}

/// The printed name of phase `i`.
pub open spec fn name_spec(i: usize) -> Seq<char> {
    match i {
        0 => "_start"@,
        1 => "stamp_a"@,
        2 => "stamp_b"@,
        3 => "stvec"@,
        4 => "frame_init"@,
        5 => "task_init"@,
        6 => "page_build"@,
        7 => "page_verify"@,
        8 => "activate"@,
        9 => "virtq_init"@,
        10 => "DRIVER_OK"@,
        11 => "first_rx"@,
        12 => "serving_ready"@,
        13 => "net_init_done"@,
        14 => "heap_init"@,
        15 => "accounting"@,
        16 => "freeze"@,
        17 => "sret"@,
        18 => "syn_rx"@,
        19 => "established"@,
        20 => "E3g"@,
        21 => "E3g_doorbell"@,
        _ => "?"@,
    }
}

/// The printed name of phase `i`.
pub fn name(i: usize) -> (s: &'static str)
    requires
        i < N,
    ensures
        s@ == name_spec(i),
{
    match i {
        0 => "_start",
        1 => "stamp_a",
        2 => "stamp_b",
        3 => "stvec",
        4 => "frame_init",
        5 => "task_init",
        6 => "page_build",
        7 => "page_verify",
        8 => "activate",
        9 => "virtq_init",
        10 => "DRIVER_OK",
        11 => "first_rx",
        12 => "serving_ready",
        13 => "net_init_done",
        14 => "heap_init",
        15 => "accounting",
        16 => "freeze",
        17 => "sret",
        18 => "syn_rx",
        19 => "established",
        20 => "E3g",
        21 => "E3g_doorbell",
        _ => "?",
    }
}

/// `a - b` modulo 2^64 (or 2^32): how far the counter moved from `b` to `a`.
pub open spec fn wrap_sub(a: usize, b: usize) -> usize {
    if a >= b {
        (a - b) as usize
    } else {
        (a - b + usize::MAX + 1) as usize
    }
}

/// One line of the phase report: the phase, its stamp, the time since
/// `_start`, and the time since the phase printed before it (all in
/// ticks).
#[derive(Clone, Copy, Debug, PartialEq, Eq, Structural)]
pub struct PhaseLine {
    pub phase: usize,
    pub ticks: usize,
    pub since_start: usize,
    pub delta: usize,
}

/// Line `k` of `lines` carries its phase's stamp and the offsets from
/// `_start` and from the line before.
pub open spec fn line_ok(stamps: Seq<usize>, lines: Seq<PhaseLine>, k: int) -> bool {
    let t = stamps[lines[k].phase as int];
    let prev = if k == 0 { stamps[START as int] } else { lines[k - 1].ticks };
    &&& lines[k].ticks == t
    &&& lines[k].since_start == wrap_sub(t, stamps[START as int])
    &&& lines[k].delta == wrap_sub(t, prev)
}

impl Phases {
    /// The report printed once after the response: the stamped phases in
    /// time order (equal stamps in index order), each with its offsets from
    /// `_start` and from the line before (the first line's from `_start`).
    /// The phases never stamped are listed apart by `unset`.
    pub fn report(&self) -> (lines: Vec<PhaseLine>)
        ensures
            ({
                let order = Seq::new(lines@.len(), |k: int| lines@[k].phase);
                &&& sorted_by_stamp(self.stamps@, order)
                &&& order.no_duplicates()
                &&& forall|k: int| 0 <= k < order.len() ==> order[k] < N && self.stamps@[order[k] as int] != 0
                &&& forall|i: int| 0 <= i < N && self.stamps@[i] != 0 ==> order.contains(i as usize)
            }),
            forall|k: int| 0 <= k < lines@.len() ==> #[trigger] line_ok(self.stamps@, lines@, k),
    {
        let order = self.order_by_time();
        let t0 = self.stamps[START];
        let mut lines: Vec<PhaseLine> = Vec::new();
        let mut last = t0;
        let mut k: usize = 0;
        while k < order.len()
            invariant
                k <= order@.len(),
                lines@.len() == k,
                forall|q: int| 0 <= q < order@.len() ==> order@[q] < N,
                t0 == self.stamps@[START as int],
                k == 0 ==> last == t0,
                k > 0 ==> last == lines@[k - 1].ticks,
                forall|q: int| 0 <= q < k ==> #[trigger] lines@[q].phase == order@[q],
                forall|q: int| 0 <= q < k ==> #[trigger] line_ok(self.stamps@, lines@, q),
            decreases order@.len() - k,
        {
            let i = order[k];
            let t = self.stamps[i];
            let ghost before = lines@;
            lines.push(PhaseLine { phase: i, ticks: t, since_start: t.wrapping_sub(t0), delta: t.wrapping_sub(last) });
            proof {
                assert forall|q: int| 0 <= q < k + 1 implies #[trigger] line_ok(self.stamps@, lines@, q) by {
                    if q < k {
                        assert(line_ok(self.stamps@, before, q));
                        assert(lines@[q] == before[q]);
                        if q > 0 {
                            assert(lines@[q - 1] == before[q - 1]);
                        }
                    }
                }
                assert forall|q: int| 0 <= q < k + 1 implies #[trigger] lines@[q].phase == order@[q] by {
                    if q < k {
                        assert(lines@[q] == before[q]);
                    }
                }
            }
            last = t;
            k = k + 1;
        }
        proof {
            let ord2 = Seq::new(lines@.len(), |q: int| lines@[q].phase);
            assert(ord2 =~= order@);
        }
        lines
    }
}

impl Phases {
    /// The phases never stamped, by index: the report's "unset" lines.
    pub fn unset(&self) -> (v: Vec<usize>)
        ensures
            forall|k: int| 0 <= k < v@.len() ==> #[trigger] v@[k] < N && self.stamps@[v@[k] as int] == 0,
            forall|a: int, b: int| 0 <= a < b < v@.len() ==> v@[a] < v@[b],
            forall|i: int| 0 <= i < N && self.stamps@[i] == 0 ==> v@.contains(i as usize),
    {
        let mut v: Vec<usize> = Vec::new();
        let mut i: usize = 0;
        while i < N
            invariant
                i <= N,
                forall|k: int| 0 <= k < v@.len() ==> #[trigger] v@[k] < i && self.stamps@[v@[k] as int] == 0,
                forall|a: int, b: int| 0 <= a < b < v@.len() ==> v@[a] < v@[b],
                forall|j: int| 0 <= j < i && self.stamps@[j] == 0 ==> v@.contains(j as usize),
            decreases N - i,
        {
            let ghost before = v@;
            if self.stamps[i] == 0 {
                v.push(i);
                assert forall|j: int| 0 <= j < i && self.stamps@[j] == 0 implies v@.contains(j as usize) by {
                    let w = choose|w: int| 0 <= w < before.len() && before[w] == j as usize;
                    assert(v@[w] == j as usize);
                }
                assert(v@[v@.len() - 1] == i);
            }
            i = i + 1;
        }
        v
    }
}

} // verus!
