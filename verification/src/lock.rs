use vstd::prelude::*;
use crate::slot::{Qstat, Qerror};
use crate::model::{QueueModel, lemma_succ, lemma_fresh_wf, lemma_refuses_iff_full,
    lemma_acquire_wf, lemma_granted_is_head, lemma_release_wf};

verus! {

/// The bookkeeping of a lock: the ring of slots, the slot to hand out next,
/// and the number of tickets that are out.
#[derive(Debug)]
pub struct InnerQ {
    queue: Vec<Qstat>,
    last_q: usize,
    load: usize,
}

impl View for InnerQ {
    type V = QueueModel;

    closed spec fn view(&self) -> QueueModel {
        QueueModel {
            slots: self.queue@,
            next_slot: self.last_q as nat,
            occupancy: self.load as nat,
        }
    }
}

/// The array-based queue lock. One value is shared by all participants
/// behind whatever guard the caller serialises them with; each operation is
/// one step of the ring.
#[derive(Debug)]
pub struct Qlock {
    data: InnerQ,
}

impl View for Qlock {
    type V = QueueModel;

    closed spec fn view(&self) -> QueueModel {
        self.data@
    }
}

impl Qlock {
    /// The lock is in a state that its operations can reach.
    pub open spec fn wf(&self) -> bool {
        self@.wf()
    }

    /// A lock with `num` empty slots.
    pub fn new(num: usize) -> (lock: Self)
        requires
            1 <= num <= isize::MAX,
        ensures
            lock@ == QueueModel::fresh(num as nat),
            lock.wf(),
    {
        let mut vec: Vec<Qstat> = Vec::with_capacity(num);
        let mut i: usize = 0;
        while i < num
            invariant
                i <= num,
                vec@ =~= Seq::new(i as nat, |k: int| Qstat::Empty),
            decreases num - i,
        {
            vec.push(Qstat::Empty);
            i += 1;
        }
        proof {
            lemma_fresh_wf(num as nat);
        }
        Qlock { data: InnerQ { queue: vec, last_q: 0, load: 0 } }
    }

    /// Draws a ticket: the index of the slot that the caller polls with
    /// `check`. The ticket goes at once when no other is out. The call is
    /// refused, and nothing changes, when every slot is taken.
    pub fn queue(&mut self) -> (res: Result<usize, Qerror>)
        requires
            old(self).wf(),
        ensures
            final(self).wf(),
            res is Err <==> old(self)@.occupancy == old(self)@.capacity(),
            res is Err <==> old(self)@.refuses(),
            res is Err ==> res == Err::<usize, Qerror>(Qerror::OutOfTicket),
            res is Err ==> final(self)@ == old(self)@,
            res is Ok ==> res == Ok::<usize, Qerror>(old(self)@.next_slot as usize),
            res is Ok ==> final(self)@ == old(self)@.acquire(),
            old(self)@.occupancy == 0 ==> res is Ok && final(self)@.granted(res->Ok_0 as int),
    {
        proof {
            lemma_refuses_iff_full(self@);
            if !self@.refuses() {
                lemma_acquire_wf(self@);
            }
            lemma_succ(self@.next_slot as int, self@.capacity() as int);
        }
        let ticket: usize = self.data.last_q;
        if self.data.queue[ticket] != Qstat::Empty {
            return Err(Qerror::OutOfTicket);
        }
        let taken: Qstat = if self.data.load == 0 { Qstat::Go } else { Qstat::Wait };
        self.data.queue.set(ticket, taken);
        self.data.last_q = (ticket + 1) % self.data.queue.len();
        self.data.load += 1;
        Ok(ticket)
    }

    /// Whether `ticket` holds the lock. Nothing changes; a participant calls
    /// this until it answers `true`.
    pub fn check(&self, ticket: usize) -> (granted: bool)
        requires
            ticket < self@.capacity(),
        ensures
            granted == self@.granted(ticket as int),
    {
        self.data.queue[ticket] == Qstat::Go
    }

    /// Gives the lock back. The caller holds it under `ticket`. A
    /// participant waiting in the slot after `ticket` is told to go, and the
    /// slot of `ticket` is emptied.
    pub fn unlock(&mut self, ticket: usize)
        requires
            old(self).wf(),
            ticket < old(self)@.capacity(),
            old(self)@.granted(ticket as int),
        ensures
            final(self).wf(),
            final(self)@ == old(self)@.release(ticket as int),
    {
        proof {
            lemma_granted_is_head(self@, ticket as int);
            lemma_release_wf(self@, ticket as int);
            lemma_succ(ticket as int, self@.capacity() as int);
        }
        let next: usize = (ticket + 1) % self.data.queue.len();
        if self.data.queue[next] == Qstat::Wait {
            self.data.queue.set(next, Qstat::Go);
        }
        self.data.queue.set(ticket, Qstat::Empty);
        self.data.load -= 1;
    }

    /// The number of slots.
    pub fn capacity(&self) -> (n: usize)
        ensures
            n == self@.capacity(),
    {
        self.data.queue.len()
    }

    /// The number of tickets that are out.
    pub fn load(&self) -> (n: usize)
        ensures
            n == self@.occupancy,
    {
        self.data.load
    }

    /// A copy of the ring as it stands, slot by slot, for a caller that
    /// wants to trace the lock.
    pub fn snapshot(&self) -> (slots: Vec<Qstat>)
        ensures
            slots@ == self@.slots,
    {
        let n: usize = self.data.queue.len();
        let mut slots: Vec<Qstat> = Vec::with_capacity(n);
        let mut i: usize = 0;
        while i < n
            invariant
                n == self.data.queue@.len(),
                i <= n,
                slots@ =~= self.data.queue@.take(i as int),
            decreases n - i,
        {
            slots.push(self.data.queue[i]);
            i += 1;
        }
        assert(slots@ =~= self.data.queue@);
        slots
    }
}

/// A value kept together with the lock that guards it.
pub struct MTD<T> {
    pub lock: Qlock,
    pub inner: T,
}

impl<T: AsRef<str>> MTD<T> {
    /// Puts `inner` behind a new lock with `num` empty slots.
    pub fn new(num: usize, inner: T) -> (guarded: Self)
        requires
            1 <= num <= isize::MAX,
        ensures
            guarded.lock@ == QueueModel::fresh(num as nat),
            guarded.lock.wf(),
            guarded.inner == inner,
    {
        MTD { lock: Qlock::new(num), inner }
    }
}

} // verus!
