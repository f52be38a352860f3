use array_based_queue_lock::lock::{Qlock, MTD};
use array_based_queue_lock::slot::{Qerror, Qstat};

fn granted_count(lock: &Qlock) -> usize {
    lock.snapshot().iter().filter(|s| **s == Qstat::Go).count()
}

fn taken_count(lock: &Qlock) -> usize {
    lock.snapshot().iter().filter(|s| **s != Qstat::Empty).count()
}

#[test]
fn new_lock_is_empty() {
    let lock = Qlock::new(4);
    assert_eq!(lock.capacity(), 4);
    assert_eq!(lock.load(), 0);
    assert_eq!(lock.snapshot(), vec![Qstat::Empty; 4]);
    for t in 0..4 {
        assert!(!lock.check(t));
    }
}

#[test]
fn first_ticket_goes_at_once() {
    let mut lock = Qlock::new(3);
    let t = lock.queue();
    assert_eq!(t, Ok(0));
    assert!(lock.check(0));
    assert_eq!(lock.load(), 1);
    assert_eq!(lock.snapshot(), vec![Qstat::Go, Qstat::Empty, Qstat::Empty]);
}

#[test]
fn second_ticket_waits() {
    let mut lock = Qlock::new(3);
    assert_eq!(lock.queue(), Ok(0));
    assert_eq!(lock.queue(), Ok(1));
    assert!(lock.check(0));
    assert!(!lock.check(1));
    assert_eq!(lock.load(), 2);
    assert_eq!(lock.snapshot(), vec![Qstat::Go, Qstat::Wait, Qstat::Empty]);
}

#[test]
fn handoff_with_two_slots() {
    let mut lock = Qlock::new(2);
    let t0 = lock.queue().unwrap();
    assert_eq!(t0, 0);
    assert!(lock.check(t0));
    let t1 = lock.queue().unwrap();
    assert_eq!(t1, 1);
    assert!(!lock.check(t1));
    lock.unlock(t0);
    assert!(lock.check(t1));
    assert!(!lock.check(t0));
    assert_eq!(lock.snapshot(), vec![Qstat::Empty, Qstat::Go]);
    assert_eq!(lock.load(), 1);
    // slot 0 is handed out again, behind the holder
    let t2 = lock.queue().unwrap();
    assert_eq!(t2, 0);
    assert!(!lock.check(t2));
    lock.unlock(t1);
    assert!(lock.check(t2));
    assert_eq!(lock.snapshot(), vec![Qstat::Go, Qstat::Empty]);
}

#[test]
fn unlock_with_nobody_waiting_empties_the_ring() {
    let mut lock = Qlock::new(3);
    let t = lock.queue().unwrap();
    lock.unlock(t);
    assert_eq!(lock.load(), 0);
    assert_eq!(lock.snapshot(), vec![Qstat::Empty; 3]);
    // the next ticket is the following slot, and goes at once
    assert_eq!(lock.queue(), Ok(1));
    assert!(lock.check(1));
}

#[test]
fn single_slot_lock_cycles() {
    let mut lock = Qlock::new(1);
    for _ in 0..5 {
        assert_eq!(lock.queue(), Ok(0));
        assert!(lock.check(0));
        assert_eq!(lock.load(), 1);
        lock.unlock(0);
        assert!(!lock.check(0));
        assert_eq!(lock.load(), 0);
    }
}

#[test]
fn as_many_tickets_as_slots_are_handed_out() {
    for n in 1..=6usize {
        let mut lock = Qlock::new(n);
        for k in 0..n {
            assert_eq!(lock.queue(), Ok(k));
            assert_eq!(lock.load(), k + 1);
        }
        let mut want = vec![Qstat::Wait; n];
        want[0] = Qstat::Go;
        assert_eq!(lock.snapshot(), want);
        assert_eq!(granted_count(&lock), 1);
    }
}

#[test]
fn draw_on_a_full_ring_is_refused() {
    let mut lock = Qlock::new(2);
    assert_eq!(lock.queue(), Ok(0));
    assert_eq!(lock.queue(), Ok(1));
    assert_eq!(lock.queue(), Err(Qerror::OutOfTicket));
    assert_eq!(lock.snapshot(), vec![Qstat::Go, Qstat::Wait]);
    assert_eq!(lock.load(), 2);
    assert!(lock.check(0));
    assert!(!lock.check(1));
}

#[test]
fn one_more_draw_than_slots_is_refused() {
    for n in 1..=6usize {
        let mut lock = Qlock::new(n);
        for k in 0..n {
            assert_eq!(lock.queue(), Ok(k));
        }
        let before = lock.snapshot();
        assert_eq!(lock.queue(), Err(Qerror::OutOfTicket));
        assert_eq!(lock.queue(), Err(Qerror::OutOfTicket));
        assert_eq!(lock.snapshot(), before);
        assert_eq!(lock.load(), n);
        assert!(lock.check(0));
    }
}

#[test]
fn refused_draw_on_a_single_slot_keeps_the_holder() {
    let mut lock = Qlock::new(1);
    assert_eq!(lock.queue(), Ok(0));
    assert_eq!(lock.queue(), Err(Qerror::OutOfTicket));
    assert_eq!(lock.load(), 1);
    assert_eq!(lock.snapshot(), vec![Qstat::Go]);
    assert!(lock.check(0));
    lock.unlock(0);
    assert_eq!(lock.queue(), Ok(0));
    assert!(lock.check(0));
}

#[test]
fn draw_is_accepted_again_after_a_give_back() {
    let mut lock = Qlock::new(3);
    assert_eq!(lock.queue(), Ok(0));
    assert_eq!(lock.queue(), Ok(1));
    assert_eq!(lock.queue(), Ok(2));
    assert_eq!(lock.queue(), Err(Qerror::OutOfTicket));
    lock.unlock(0);
    assert_eq!(lock.queue(), Ok(0));
    assert_eq!(lock.snapshot(), vec![Qstat::Wait, Qstat::Go, Qstat::Wait]);
    assert_eq!(lock.load(), 3);
    assert_eq!(lock.queue(), Err(Qerror::OutOfTicket));
}

#[test]
fn slots_are_recycled_round_the_ring() {
    let mut lock = Qlock::new(3);
    for round in 0..12usize {
        let t = lock.queue().unwrap();
        assert_eq!(t, round % 3);
        assert!(lock.check(t));
        lock.unlock(t);
        assert_eq!(lock.snapshot(), vec![Qstat::Empty; 3]);
    }
}

#[test]
fn recycled_slot_waits_behind_the_holder() {
    let mut lock = Qlock::new(3);
    let a = lock.queue().unwrap();
    let b = lock.queue().unwrap();
    let c = lock.queue().unwrap();
    assert_eq!((a, b, c), (0, 1, 2));
    lock.unlock(a);
    assert_eq!(lock.snapshot(), vec![Qstat::Empty, Qstat::Go, Qstat::Wait]);
    let d = lock.queue().unwrap();
    assert_eq!(d, 0);
    assert_eq!(lock.snapshot(), vec![Qstat::Wait, Qstat::Go, Qstat::Wait]);
    lock.unlock(b);
    assert_eq!(lock.snapshot(), vec![Qstat::Wait, Qstat::Empty, Qstat::Go]);
    lock.unlock(c);
    assert_eq!(lock.snapshot(), vec![Qstat::Go, Qstat::Empty, Qstat::Empty]);
    assert!(lock.check(d));
}

#[test]
fn tickets_are_granted_in_the_order_drawn() {
    let mut lock = Qlock::new(5);
    let tickets: Vec<usize> = (0..5).map(|_| lock.queue().unwrap()).collect();
    assert_eq!(tickets, vec![0, 1, 2, 3, 4]);
    for (k, &t) in tickets.iter().enumerate() {
        for &u in &tickets {
            assert_eq!(lock.check(u), u == t);
        }
        assert_eq!(lock.load(), 5 - k);
        lock.unlock(t);
    }
    assert_eq!(lock.load(), 0);
}

#[test]
fn load_counts_the_taken_slots() {
    let mut lock = Qlock::new(4);
    let mut out: Vec<usize> = Vec::new();
    let script = [true, true, false, true, true, false, false, true, false, false];
    for &draw in script.iter() {
        if draw {
            out.push(lock.queue().unwrap());
        } else {
            let t = out.remove(0);
            assert!(lock.check(t));
            lock.unlock(t);
        }
        assert_eq!(lock.load(), out.len());
        assert_eq!(taken_count(&lock), out.len());
        assert!(granted_count(&lock) <= 1);
        assert_eq!(granted_count(&lock) == 1, !out.is_empty());
    }
}

/// One participant of the simulated run below.
struct Participant {
    ticket: Option<usize>,
    holding: u32,
    rounds_left: u32,
}

#[test]
fn interleaved_participants_all_finish() {
    const PARTICIPANTS: usize = 4;
    const ROUNDS: u32 = 25;
    let mut lock = Qlock::new(PARTICIPANTS);
    let mut ps: Vec<Participant> = (0..PARTICIPANTS)
        .map(|_| Participant { ticket: None, holding: 0, rounds_left: ROUNDS })
        .collect();
    let mut seed: u64 = 0x2545_f491_4f6c_dd1d;
    let mut steps: u64 = 0;
    while ps.iter().any(|p| p.rounds_left > 0) {
        steps += 1;
        assert!(steps < 1_000_000, "a participant starved");
        seed = seed.wrapping_mul(6364136223846793005).wrapping_add(1442695040888963407);
        let who = ((seed >> 33) % PARTICIPANTS as u64) as usize;
        let p = &mut ps[who];
        if p.rounds_left == 0 {
            continue;
        }
        match p.ticket {
            None => {
                p.ticket = Some(lock.queue().unwrap());
                p.holding = 0;
            }
            Some(t) => {
                if lock.check(t) {
                    if p.holding < 2 {
                        p.holding += 1;
                    } else {
                        lock.unlock(t);
                        p.ticket = None;
                        p.rounds_left -= 1;
                    }
                }
            }
        }
        assert!(granted_count(&lock) <= 1);
        let holders = ps.iter().filter(|p| p.ticket.map_or(false, |t| lock.check(t))).count();
        assert!(holders <= 1);
        assert!(lock.load() <= PARTICIPANTS);
    }
    assert_eq!(lock.load(), 0);
    assert_eq!(lock.snapshot(), vec![Qstat::Empty; PARTICIPANTS]);
}

#[test]
fn guarded_value_starts_with_an_empty_lock() {
    let m = MTD::new(4, "hello".to_string());
    assert_eq!(m.inner, "hello");
    assert_eq!(m.lock.capacity(), 4);
    assert_eq!(m.lock.load(), 0);
    assert_eq!(m.lock.snapshot(), vec![Qstat::Empty; 4]);
}
