use vstd::prelude::*;
use crate::slot::Qstat;

verus! {

/// The index that follows `i` on a ring of `n` slots.
pub open spec fn succ(i: int, n: int) -> int {
    (i + 1) % n
}

/// On a ring, the follower of the last index is the first index, and the
/// follower of any other index is the next integer.
pub proof fn lemma_succ(i: int, n: int)
    requires
        0 <= i < n,
    ensures
        succ(i, n) == (if i + 1 == n { 0 } else { i + 1 }),
        0 <= succ(i, n) < n,
{
    if i + 1 == n {
        vstd::arithmetic::div_mod::lemma_mod_self_0(n);
    } else {
        vstd::arithmetic::div_mod::lemma_small_mod((i + 1) as nat, n as nat);
    }
}

/// The mathematical state of the lock: the ring of slots, the slot that the
/// next ticket will name, and the number of tickets drawn and not yet given
/// back.
pub struct QueueModel {
    pub slots: Seq<Qstat>,
    pub next_slot: nat,
    pub occupancy: nat,
}

impl QueueModel {
    /// The number of slots.
    pub open spec fn capacity(self) -> nat {
        self.slots.len()
    }

    /// The state of a new lock with `n` slots: every slot empty, slot 0 next.
    pub open spec fn fresh(n: nat) -> QueueModel {
        QueueModel { slots: Seq::new(n, |i: int| Qstat::Empty), next_slot: 0, occupancy: 0 }
    }

    /// The next ticket is refused: the slot it would name is not empty.
    pub open spec fn refuses(self) -> bool {
        self.slots[self.next_slot as int] != Qstat::Empty
    }

    /// Ticket `t` holds the lock.
    pub open spec fn granted(self, t: int) -> bool {
        self.slots[t] == Qstat::Go
    }

    /// Slot `t` belongs to a participant, waiting or holding.
    pub open spec fn outstanding(self, t: int) -> bool {
        self.slots[t] != Qstat::Empty
    }

    /// The slots that belong to a participant.
    pub open spec fn taken(self) -> Set<int> {
        Set::new(|t: int| 0 <= t < self.slots.len() && self.slots[t] != Qstat::Empty)
    }

    /// The state after a ticket was handed out: the next slot is taken, as
    /// `Go` when nobody was there, as `Wait` otherwise.
    pub open spec fn acquire(self) -> QueueModel {
        QueueModel {
            slots: self.slots.update(
                self.next_slot as int,
                if self.occupancy == 0 { Qstat::Go } else { Qstat::Wait },
            ),
            next_slot: succ(self.next_slot as int, self.slots.len() as int) as nat,
            occupancy: self.occupancy + 1,
        }
    }

    /// The state after ticket `t` was given back: a participant waiting in
    /// the slot after `t` is told to go, and slot `t` is emptied.
    pub open spec fn release(self, t: int) -> QueueModel {
        let n = succ(t, self.slots.len() as int);
        let handed = if self.slots[n] == Qstat::Wait {
            self.slots.update(n, Qstat::Go)
        } else {
            self.slots
        };
        QueueModel {
            slots: handed.update(t, Qstat::Empty),
            next_slot: self.next_slot,
            occupancy: (self.occupancy - 1) as nat,
        }
    }

    /// The slot of the oldest outstanding ticket; with none outstanding, the
    /// slot that the next ticket will name.
    pub open spec fn head(self) -> int {
        if self.next_slot >= self.occupancy {
            self.next_slot - self.occupancy
        } else {
            self.next_slot + self.slots.len() - self.occupancy
        }
    }

    /// How many slots lie between the head and slot `t`, walking forward
    /// round the ring. For an outstanding ticket this is the number of
    /// outstanding tickets that were drawn before it.
    pub open spec fn position(self, t: int) -> int {
        if t >= self.head() {
            t - self.head()
        } else {
            t + self.slots.len() - self.head()
        }
    }

    /// What slot `t` holds in a state of the lock: the head goes, the
    /// tickets behind it wait, the rest is empty.
    pub open spec fn expected(self, t: int) -> Qstat {
        let p = self.position(t);
        if p >= self.occupancy {
            Qstat::Empty
        } else if p == 0 {
            Qstat::Go
        } else {
            Qstat::Wait
        }
    }

    /// The states that a lock can be in: there is at least one slot, no
    /// more tickets are out than there are slots, the tickets that are out
    /// are the `occupancy` slots that end just before `next_slot`, the
    /// oldest of them goes and the others wait.
    pub open spec fn wf(self) -> bool {
        &&& 1 <= self.slots.len() <= isize::MAX
        &&& self.next_slot < self.slots.len()
        &&& self.occupancy <= self.slots.len()
        &&& forall|t: int| 0 <= t < self.slots.len() ==> #[trigger] self.slots[t] == self.expected(t)
    }
}

/// A new lock is in a state of the lock.
pub proof fn lemma_fresh_wf(n: nat)
    requires
        1 <= n <= isize::MAX,
    ensures
        QueueModel::fresh(n).wf(),
        QueueModel::fresh(n).capacity() == n,
{
}

/// The next ticket is refused exactly when every slot is taken.
pub proof fn lemma_refuses_iff_full(s: QueueModel)
    requires
        s.wf(),
    ensures
        s.refuses() <==> s.occupancy == s.capacity(),
{
    let t = s.next_slot as int;
    assert(s.slots[t] == s.expected(t));
}

/// Handing out a ticket that is not refused leads from a state of the lock
/// to a state of the lock, with the same head.
pub proof fn lemma_acquire_wf(s: QueueModel)
    requires
        s.wf(),
        !s.refuses(),
    ensures
        s.occupancy < s.capacity(),
        s.acquire().wf(),
        s.acquire().head() == s.head(),
        s.acquire().capacity() == s.capacity(),
{
    lemma_refuses_iff_full(s);
    lemma_succ(s.next_slot as int, s.slots.len() as int);
    let a = s.acquire();
    assert forall|t: int| 0 <= t < a.slots.len() implies #[trigger] a.slots[t] == a.expected(t) by {
        assert(s.slots[t] == s.expected(t));
    }
}

/// A granted ticket is the head of the ring.
pub proof fn lemma_granted_is_head(s: QueueModel, t: int)
    requires
        s.wf(),
        0 <= t < s.capacity(),
        s.granted(t),
    ensures
        s.occupancy >= 1,
        t == s.head(),
{
    assert(s.slots[t] == s.expected(t));
}

/// Giving back the granted ticket leads from a state of the lock to a state
/// of the lock, and moves the head to the slot after it.
pub proof fn lemma_release_wf(s: QueueModel, t: int)
    requires
        s.wf(),
        0 <= t < s.capacity(),
        s.granted(t),
    ensures
        s.release(t).wf(),
        s.release(t).head() == succ(t, s.capacity() as int),
        s.release(t).capacity() == s.capacity(),
        s.release(t).occupancy + 1 == s.occupancy,
{
    lemma_granted_is_head(s, t);
    lemma_succ(t, s.slots.len() as int);
    let n = succ(t, s.slots.len() as int);
    let r = s.release(t);
    assert(s.slots[n] == s.expected(n));
    assert forall|u: int| 0 <= u < r.slots.len() implies #[trigger] r.slots[u] == r.expected(u) by {
        assert(s.slots[u] == s.expected(u));
    }
}

} // verus!
