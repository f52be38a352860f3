use vstd::prelude::*;
use vstd::set_lib::{set_int_range, lemma_int_range, lemma_set_disjoint_lens};
use crate::slot::Qstat;
use crate::model::{QueueModel, succ, lemma_succ, lemma_fresh_wf, lemma_refuses_iff_full,
    lemma_acquire_wf, lemma_granted_is_head, lemma_release_wf};

verus! {

/// One call on the lock, as the guard serialises them.
pub enum Event {
    /// A participant asks for a ticket.
    Draw,
    /// The participant that holds the lock under this ticket gives it back.
    GiveBack(int),
}

/// The call keeps to the protocol: only the holder gives the lock back.
pub open spec fn allowed(s: QueueModel, e: Event) -> bool {
    match e {
        Event::Draw => true,
        Event::GiveBack(t) => 0 <= t < s.capacity() && s.granted(t),
    }
}

/// The state after one call. A refused draw changes nothing.
pub open spec fn step(s: QueueModel, e: Event) -> QueueModel {
    match e {
        Event::Draw => if s.refuses() { s } else { s.acquire() },
        Event::GiveBack(t) => s.release(t),
    }
}

/// The state after a history of calls, oldest first.
pub open spec fn run(s: QueueModel, es: Seq<Event>) -> QueueModel
    decreases es.len(),
{
    if es.len() == 0 {
        s
    } else {
        step(run(s, es.drop_last()), es.last())
    }
}

/// Every call of the history keeps to the protocol in the state it meets.
pub open spec fn lawful(s: QueueModel, es: Seq<Event>) -> bool
    decreases es.len(),
{
    es.len() == 0 || (lawful(s, es.drop_last()) && allowed(run(s, es.drop_last()), es.last()))
}

/// Both slots are taken, and `t1` stands nearer to the head than `t2`: it
/// was drawn first.
pub open spec fn ahead(s: QueueModel, t1: int, t2: int) -> bool {
    &&& 0 <= t1 < s.capacity()
    &&& 0 <= t2 < s.capacity()
    &&& s.outstanding(t1)
    &&& s.outstanding(t2)
    &&& s.position(t1) < s.position(t2)
}

/// The state after `k` tickets were drawn in a row.
pub open spec fn draw_times(s: QueueModel, k: nat) -> QueueModel
    decreases k,
{
    if k == 0 {
        s
    } else {
        draw_times(s, (k - 1) as nat).acquire()
    }
}

/// The state after the lock went from holder to holder `k` times, each
/// holder giving it back in turn.
pub open spec fn serve(s: QueueModel, k: nat) -> QueueModel
    decreases k,
{
    if k == 0 {
        s
    } else {
        serve(s.release(s.head()), (k - 1) as nat)
    }
}

/// What one call may do to one slot: leave it, take it while it is empty
/// (as `Go` on an idle lock, as `Wait` otherwise), tell its waiting
/// participant to go, or empty it after its holder.
pub open spec fn slot_moves(before: Qstat, after: Qstat, idle: bool) -> bool {
    ||| after == before
    ||| before == Qstat::Empty && after == Qstat::Wait && !idle
    ||| before == Qstat::Empty && after == Qstat::Go && idle
    ||| before == Qstat::Wait && after == Qstat::Go
    ||| before == Qstat::Go && after == Qstat::Empty
}

/// One lawful call leads from a state of the lock to a state of the lock,
/// with as many slots.
pub proof fn lemma_step_wf(s: QueueModel, e: Event)
    requires
        s.wf(),
        allowed(s, e),
    ensures
        step(s, e).wf(),
        step(s, e).capacity() == s.capacity(),
{
    match e {
        Event::Draw => {
            if !s.refuses() {
                lemma_acquire_wf(s);
            }
        },
        Event::GiveBack(t) => {
            lemma_release_wf(s, t);
        },
    }
}

/// Every lawful history leads from a state of the lock to a state of the
/// lock, with as many slots.
pub proof fn lemma_run_wf(s: QueueModel, es: Seq<Event>)
    requires
        s.wf(),
        lawful(s, es),
    ensures
        run(s, es).wf(),
        run(s, es).capacity() == s.capacity(),
    decreases es.len(),
{
    if es.len() > 0 {
        lemma_run_wf(s, es.drop_last());
        lemma_step_wf(run(s, es.drop_last()), es.last());
    }
}

/// Mutual exclusion in one state: two granted tickets are the same ticket.
pub proof fn lemma_mutual_exclusion(s: QueueModel, i: int, j: int)
    requires
        s.wf(),
        0 <= i < s.capacity(),
        0 <= j < s.capacity(),
        s.granted(i),
        s.granted(j),
    ensures
        i == j,
{
    lemma_granted_is_head(s, i);
    lemma_granted_is_head(s, j);
}

/// Mutual exclusion: after any lawful history on a new lock, at most one
/// ticket is granted.
pub proof fn lemma_mutual_exclusion_always(n: nat, es: Seq<Event>, i: int, j: int)
    requires
        1 <= n <= isize::MAX,
        lawful(QueueModel::fresh(n), es),
        0 <= i < n,
        0 <= j < n,
        run(QueueModel::fresh(n), es).granted(i),
        run(QueueModel::fresh(n), es).granted(j),
    ensures
        i == j,
{
    lemma_fresh_wf(n);
    lemma_run_wf(QueueModel::fresh(n), es);
    lemma_mutual_exclusion(run(QueueModel::fresh(n), es), i, j);
}

/// A slot is taken exactly when it lies less than
/// `occupancy` slots from the head, and it is granted exactly when it is
/// taken and is the head.
pub proof fn lemma_taken_slots(s: QueueModel, t: int)
    requires
        s.wf(),
        0 <= t < s.capacity(),
    ensures
        0 <= s.position(t) < s.capacity(),
        s.outstanding(t) <==> s.position(t) < s.occupancy,
        s.granted(t) <==> s.outstanding(t) && s.position(t) == 0,
{
    assert(s.slots[t] == s.expected(t));
}

/// The life of a slot: a lawful call moves every slot along `Empty`,
/// `Wait`, `Go`, `Empty`, and skips `Wait` only on an idle lock.
pub proof fn lemma_slot_cycle(s: QueueModel, e: Event, t: int)
    requires
        s.wf(),
        allowed(s, e),
        0 <= t < s.capacity(),
    ensures
        slot_moves(s.slots[t], step(s, e).slots[t], s.occupancy == 0),
{
    lemma_refuses_iff_full(s);
    match e {
        Event::Draw => {
            let n = s.next_slot as int;
            assert(s.slots[n] == s.expected(n));
        },
        Event::GiveBack(h) => {
            lemma_granted_is_head(s, h);
            lemma_succ(h, s.capacity() as int);
        },
    }
}

/// The number of tickets that are out is the number of slots that are
/// taken, and never more than the number of slots.
pub proof fn lemma_occupancy_counts(s: QueueModel)
    requires
        s.wf(),
    ensures
        s.taken().finite(),
        s.taken().len() == s.occupancy,
        s.occupancy <= s.capacity(),
{
    let n = s.capacity() as int;
    let h = s.head();
    let end = h + s.occupancy;
    if end <= n {
        let r = set_int_range(h, end);
        lemma_int_range(h, end);
        assert forall|t: int| s.taken().contains(t) <==> r.contains(t) by {
            if 0 <= t < n {
                assert(s.slots[t] == s.expected(t));
            }
        }
        assert(s.taken() =~= r);
    } else {
        let hi = set_int_range(h, n);
        let lo = set_int_range(0, end - n);
        lemma_int_range(h, n);
        lemma_int_range(0, end - n);
        assert forall|t: int| s.taken().contains(t) <==> (hi + lo).contains(t) by {
            if 0 <= t < n {
                assert(s.slots[t] == s.expected(t));
            }
        }
        assert(s.taken() =~= hi + lo);
        assert(hi.disjoint(lo));
        lemma_set_disjoint_lens(hi, lo);
    }
}

/// While a ticket is out, somebody holds the lock: the head is granted.
pub proof fn lemma_holder_exists(s: QueueModel)
    requires
        s.wf(),
        s.occupancy >= 1,
    ensures
        0 <= s.head() < s.capacity(),
        s.granted(s.head()),
{
    lemma_taken_slots(s, s.head());
}

/// No starvation: a ticket that is out is granted once the tickets drawn
/// before it have held the lock and given it back, one after the other, and
/// not before.
pub proof fn lemma_turn_comes(s: QueueModel, t: int)
    requires
        s.wf(),
        0 <= t < s.capacity(),
        s.outstanding(t),
    ensures
        0 <= s.position(t),
        serve(s, s.position(t) as nat).granted(t),
        forall|k: nat| k < s.position(t) ==> !#[trigger] serve(s, k).granted(t),
    decreases s.position(t),
{
    lemma_taken_slots(s, t);
    if s.position(t) > 0 {
        let h = s.head();
        lemma_holder_exists(s);
        lemma_release_wf(s, h);
        lemma_succ(h, s.capacity() as int);
        let r = s.release(h);
        lemma_taken_slots(r, t);
        assert(r.position(t) == s.position(t) - 1);
        lemma_turn_comes(r, t);
        assert forall|k: nat| k < s.position(t) implies !#[trigger] serve(s, k).granted(t) by {
            if k > 0 {
                assert(serve(s, k) == serve(r, (k - 1) as nat));
            }
        }
    }
}

/// FIFO, the newcomer: a ticket that is handed out stands behind every
/// ticket that was out already.
pub proof fn lemma_drawn_last(s: QueueModel, t: int)
    requires
        s.wf(),
        !s.refuses(),
        0 <= t < s.capacity(),
        s.outstanding(t),
    ensures
        ahead(s.acquire(), t, s.next_slot as int),
{
    lemma_acquire_wf(s);
    lemma_taken_slots(s, t);
    lemma_taken_slots(s.acquire(), t);
    lemma_taken_slots(s.acquire(), s.next_slot as int);
}

/// FIFO, no overtaking: a ticket is not granted while one drawn before it
/// is out.
pub proof fn lemma_no_overtaking(s: QueueModel, t1: int, t2: int)
    requires
        s.wf(),
        ahead(s, t1, t2),
    ensures
        !s.granted(t2),
{
    lemma_taken_slots(s, t1);
    lemma_taken_slots(s, t2);
}

/// FIFO, one call: where `t1` was drawn before `t2`, a lawful call either
/// finds `t1` granted and gives it back, or leaves `t1` before `t2`.
pub proof fn lemma_order_kept(s: QueueModel, e: Event, t1: int, t2: int)
    requires
        s.wf(),
        allowed(s, e),
        ahead(s, t1, t2),
    ensures
        (e == Event::GiveBack(t1) && s.granted(t1)) || ahead(step(s, e), t1, t2),
{
    lemma_taken_slots(s, t1);
    lemma_taken_slots(s, t2);
    match e {
        Event::Draw => {
            if !s.refuses() {
                lemma_acquire_wf(s);
                lemma_taken_slots(s.acquire(), t1);
                lemma_taken_slots(s.acquire(), t2);
            }
        },
        Event::GiveBack(h) => {
            if h != t1 {
                lemma_granted_is_head(s, h);
                lemma_release_wf(s, h);
                lemma_succ(h, s.capacity() as int);
                lemma_taken_slots(s.release(h), t1);
                lemma_taken_slots(s.release(h), t2);
            }
        },
    }
}

/// FIFO over a history: where `t1` was drawn before `t2`, at the end of a
/// lawful history either `t1` was granted at some moment of it, or `t1`
/// still stands before `t2`.
pub proof fn lemma_order_kept_always(s: QueueModel, es: Seq<Event>, t1: int, t2: int)
    requires
        s.wf(),
        lawful(s, es),
        ahead(s, t1, t2),
    ensures
        (exists|k: int| 0 <= k <= es.len() && #[trigger] run(s, es.take(k)).granted(t1)) || ahead(
            run(s, es),
            t1,
            t2,
        ),
    decreases es.len(),
{
    if es.len() > 0 {
        let before = es.drop_last();
        let mid = run(s, before);
        lemma_order_kept_always(s, before, t1, t2);
        lemma_run_wf(s, before);
        if exists|k: int| 0 <= k <= before.len() && #[trigger] run(s, before.take(k)).granted(t1) {
            let k = choose|k: int| 0 <= k <= before.len() && #[trigger] run(s, before.take(k)).granted(t1);
            assert(es.take(k) =~= before.take(k));
            assert(run(s, es.take(k)).granted(t1));
        } else {
            lemma_order_kept(mid, es.last(), t1, t2);
            if es.last() == Event::GiveBack(t1) && mid.granted(t1) {
                let k = es.len() - 1;
                assert(es.take(k) =~= before);
                assert(run(s, es.take(k)).granted(t1));
            }
        }
    }
}

/// FIFO fairness: where `t1` was drawn before `t2` and a lawful history
/// ends with `t2` granted, `t1` was granted at some moment of that history.
pub proof fn lemma_fifo(s: QueueModel, es: Seq<Event>, t1: int, t2: int)
    requires
        s.wf(),
        lawful(s, es),
        ahead(s, t1, t2),
        run(s, es).granted(t2),
    ensures
        exists|k: int| 0 <= k <= es.len() && #[trigger] run(s, es.take(k)).granted(t1),
{
    lemma_order_kept_always(s, es, t1, t2);
    lemma_run_wf(s, es);
    if ahead(run(s, es), t1, t2) {
        lemma_no_overtaking(run(s, es), t1, t2);
    }
}

/// Bounded capacity: on a new lock of `n` slots, the first `n` draws are
/// all accepted and the draw after them is refused. After `k` draws, `k`
/// tickets are out, draw number `k` (counting from 0) gets slot `k`, slot 0
/// goes and the slots from 1 up to `k` wait.
pub proof fn lemma_fill(n: nat, k: nat)
    requires
        1 <= n <= isize::MAX,
        k <= n,
    ensures
        draw_times(QueueModel::fresh(n), k).wf(),
        draw_times(QueueModel::fresh(n), k).capacity() == n,
        draw_times(QueueModel::fresh(n), k).occupancy == k,
        draw_times(QueueModel::fresh(n), k).head() == 0,
        k < n ==> !draw_times(QueueModel::fresh(n), k).refuses() && draw_times(
            QueueModel::fresh(n),
            k,
        ).next_slot == k,
        k == n ==> draw_times(QueueModel::fresh(n), k).refuses(),
        forall|t: int|
            0 <= t < n ==> #[trigger] draw_times(QueueModel::fresh(n), k).slots[t] == (if t >= k {
                Qstat::Empty
            } else if t == 0 {
                Qstat::Go
            } else {
                Qstat::Wait
            }),
    decreases k,
{
    let f = QueueModel::fresh(n);
    lemma_fresh_wf(n);
    if k > 0 {
        let p = draw_times(f, (k - 1) as nat);
        lemma_fill(n, (k - 1) as nat);
        lemma_acquire_wf(p);
        lemma_succ(p.next_slot as int, n as int);
    }
    let d = draw_times(f, k);
    lemma_refuses_iff_full(d);
    assert forall|t: int| 0 <= t < n implies #[trigger] d.slots[t] == (if t >= k {
        Qstat::Empty
    } else if t == 0 {
        Qstat::Go
    } else {
        Qstat::Wait
    }) by {
        assert(d.slots[t] == d.expected(t));
    }
}

/// Bounded capacity, the full ring: a draw while every slot is taken is
/// refused and changes nothing, so the holder stays granted and no more
/// tickets are out than there are slots.
pub proof fn lemma_full_ring_refuses(s: QueueModel)
    requires
        s.wf(),
        s.occupancy == s.capacity(),
    ensures
        s.refuses(),
        step(s, Event::Draw) == s,
        s.granted(s.head()),
{
    lemma_refuses_iff_full(s);
    lemma_holder_exists(s);
}

/// Slot recycling: giving back the granted ticket empties its slot, and a
/// draw that comes round to an empty slot is accepted and takes it, as
/// `Go` when no ticket is out and as `Wait` otherwise.
pub proof fn lemma_recycle(s: QueueModel, t: int)
    requires
        s.wf(),
        0 <= t < s.capacity(),
        s.granted(t),
    ensures
        s.release(t).slots[t] == Qstat::Empty,
        s.release(t).next_slot == t ==> !s.release(t).refuses(),
        forall|r: QueueModel|
            r.wf() && r.next_slot == t && #[trigger] r.slots[t] == Qstat::Empty ==> !r.refuses()
                && r.acquire().slots[t] == (if r.occupancy == 0 {
                Qstat::Go
            } else {
                Qstat::Wait
            }),
{
    lemma_release_wf(s, t);
}

/// Slot recycling on an idle lock: drawing a ticket and giving it back
/// leaves every slot empty again and moves on to the next slot.
pub proof fn lemma_idle_round(s: QueueModel)
    requires
        s.wf(),
        s.occupancy == 0,
    ensures
        !s.refuses(),
        s.acquire().granted(s.next_slot as int),
        s.acquire().release(s.next_slot as int) == (QueueModel {
            slots: s.slots,
            next_slot: succ(s.next_slot as int, s.capacity() as int) as nat,
            occupancy: 0,
        }),
{
    let t = s.next_slot as int;
    lemma_refuses_iff_full(s);
    lemma_succ(t, s.capacity() as int);
    let a = s.acquire();
    let r = a.release(t);
    assert(s.slots[t] == s.expected(t));
    let n = succ(t, s.capacity() as int);
    assert(s.slots[n] == s.expected(n));
    assert(r.slots =~= s.slots);
}

/// The uncontended fast path: with no ticket out, a draw is accepted and
/// its ticket is granted at once.
pub proof fn lemma_fast_path(s: QueueModel)
    requires
        s.wf(),
        s.occupancy == 0,
    ensures
        !s.refuses(),
        s.acquire().granted(s.next_slot as int),
{
    lemma_refuses_iff_full(s);
}

/// Handoff: when the holder gives the lock back while others wait, the
/// ticket in the slot after the holder's is granted, and the holder's own
/// slot is not.
pub proof fn lemma_handoff(s: QueueModel, t: int)
    requires
        s.wf(),
        0 <= t < s.capacity(),
        s.granted(t),
        s.occupancy >= 2,
    ensures
        s.release(t).granted(succ(t, s.capacity() as int)),
        !s.release(t).granted(t),
{
    lemma_granted_is_head(s, t);
    lemma_succ(t, s.capacity() as int);
    let n = succ(t, s.capacity() as int);
    assert(s.slots[n] == s.expected(n));
}

} // verus!
