use lockfree_stack::stack::{Stack, StackHead};
use lockfree_stack::stack_with_aba_problem::StackBad;
use std::cell::Cell;
use std::rc::Rc;

#[test]
fn monitor_stack_pops_in_reverse_order() {
    let mut s = StackHead::new();
    s.push(0usize);
    s.push(1);
    s.push(2);
    assert_eq!(s.pop(), Some(2));
    assert_eq!(s.pop(), Some(1));
    assert_eq!(s.pop(), Some(0));
    assert_eq!(s.pop(), None);
}

#[test]
fn value_cas_stack_pops_in_reverse_order() {
    let mut s = StackBad::new();
    s.push(0usize);
    s.push(1);
    s.push(2);
    assert_eq!(s.pop(), Some(2));
    assert_eq!(s.pop(), Some(1));
    assert_eq!(s.pop(), Some(0));
    assert_eq!(s.pop(), None);
}

#[test]
fn shared_handle_forwards_to_the_stack() {
    let mut h = Stack::new();
    h.get_mut().push(0usize);
    h.get_mut().push(1);
    h.get_mut().push(2);
    assert_eq!(h.get_mut().pop(), Some(2));
    assert_eq!(h.get_mut().pop(), Some(1));
    assert_eq!(h.get_mut().pop(), Some(0));
    assert_eq!(h.get_mut().pop(), None);
}

#[test]
fn round_trip_of_many_values() {
    let mut s = StackHead::new();
    for i in 0..500u64 {
        s.push(i * 7);
    }
    for i in (0..500u64).rev() {
        assert_eq!(s.pop(), Some(i * 7));
    }
    assert_eq!(s.pop(), None);
}

#[test]
fn pop_on_empty_stack_is_none() {
    let mut s: StackHead<u8> = StackHead::new();
    assert_eq!(s.pop(), None);
    let mut b: StackBad<u8> = StackBad::new();
    assert_eq!(b.pop(), None);
    assert!(!s.pop_begin(0));
    assert_eq!(s.pop_commit(0), None);
    assert!(!b.pop_begin(0));
    assert_eq!(b.pop_commit(0), None);
}

#[test]
fn freed_slots_are_reused_after_pops() {
    let mut s = StackHead::new();
    for round in 0..3u32 {
        for i in 0..10u32 {
            s.push(round * 100 + i);
        }
        for i in (0..10u32).rev() {
            assert_eq!(s.pop(), Some(round * 100 + i));
        }
    }
    assert_eq!(s.pop(), None);
}

#[test]
fn commit_right_after_reservation_pops_the_top() {
    let mut s = StackHead::new();
    s.push(10u32);
    s.push(20);
    assert!(s.pop_begin(3));
    assert_eq!(s.pop_commit(3), Some(20));
    assert_eq!(s.pop_commit(3), None);
    assert_eq!(s.pop(), Some(10));
}

#[test]
fn any_store_cancels_a_reservation() {
    let mut s = StackHead::new();
    s.push(1u32);
    assert!(s.pop_begin(0));
    assert!(s.pop_begin(1));
    s.push(2);
    assert_eq!(s.pop_commit(0), None);
    assert_eq!(s.pop_commit(1), None);
    assert!(s.pop_begin(1));
    assert!(s.pop_begin(0));
    assert_eq!(s.pop_commit(1), Some(2));
    assert_eq!(s.pop_commit(0), None);
    assert_eq!(s.pop(), Some(1));
    assert_eq!(s.pop(), None);
}

#[test]
fn monitor_stack_survives_address_reuse() {
    // Agent 1 reads the top and its link; agent 2 then pops both nodes and
    // pushes a new one, which lands in the slot of the old top.
    let mut s = StackHead::new();
    s.push(1u32);
    s.push(2);
    assert!(s.pop_begin(1));
    assert_eq!(s.pop(), Some(2));
    assert_eq!(s.pop(), Some(1));
    s.push(3);
    assert_eq!(s.pop_commit(1), None);
    assert_eq!(s.pop(), Some(3));
    assert_eq!(s.pop(), None);
}

#[test]
fn value_cas_stack_shows_the_aba_hazard() {
    let mut b = StackBad::new();
    b.push(1u32);
    b.push(2);
    assert!(b.pop_begin(1));
    assert!(!b.aba_hazard(1));
    assert_eq!(b.pop(), Some(2));
    assert_eq!(b.pop(), Some(1));
    b.push(3);
    assert!(b.aba_hazard(1));
    assert_eq!(b.pop(), Some(3));
    assert!(!b.aba_hazard(1));
    assert_eq!(b.pop_commit(1), None);
    assert_eq!(b.pop(), None);
}

#[test]
fn value_cas_commit_fails_when_head_moved() {
    let mut b = StackBad::new();
    b.push(5u32);
    assert!(b.pop_begin(0));
    b.push(6);
    assert!(!b.aba_hazard(0));
    assert_eq!(b.pop_commit(0), None);
    assert!(b.pop_begin(0));
    assert_eq!(b.pop_commit(0), Some(6));
    assert_eq!(b.pop(), Some(5));
}

#[test]
fn push_commit_right_after_reservation_links_the_node() {
    let mut s = StackHead::new();
    s.push_begin(0, 7u32);
    assert!(s.push_commit(0));
    assert!(!s.push_commit(0));
    assert_eq!(s.pop(), Some(7));
    assert_eq!(s.pop(), None);
}

#[test]
fn interrupted_push_retries_and_lands_on_top() {
    let mut s = StackHead::new();
    s.push_begin(0, 5u32);
    s.push(6);
    assert!(!s.push_commit(0));
    assert_eq!(s.pop(), Some(6));
    s.push_retry(0);
    assert!(s.push_commit(0));
    assert_eq!(s.pop(), Some(5));
    assert_eq!(s.pop(), None);
}

#[test]
fn reserving_for_a_push_does_not_cancel_a_pop() {
    let mut s = StackHead::new();
    s.push(1u32);
    assert!(s.pop_begin(1));
    s.push_begin(0, 9);
    assert_eq!(s.pop_commit(1), Some(1));
    assert!(!s.push_commit(0));
    s.push_retry(0);
    assert!(s.push_commit(0));
    assert_eq!(s.pop(), Some(9));
    assert_eq!(s.pop(), None);
}

#[test]
fn pop_reservation_replaces_push_reservation() {
    let mut s = StackHead::new();
    s.push(3u32);
    s.push_begin(2, 4);
    assert!(s.pop_begin(2));
    assert!(!s.push_commit(2));
    assert_eq!(s.pop_commit(2), Some(3));
    s.push_retry(2);
    assert!(s.push_commit(2));
    assert_eq!(s.pop(), Some(4));
}

#[test]
fn value_cas_push_steps_link_the_node() {
    let mut b = StackBad::new();
    b.push(1u32);
    b.push_begin(0, 2);
    assert!(b.push_commit(0));
    assert!(!b.push_commit(0));
    b.push_begin(1, 3);
    b.push(4);
    assert!(!b.push_commit(1));
    b.push_retry(1);
    assert!(b.push_commit(1));
    assert_eq!(b.pop(), Some(3));
    assert_eq!(b.pop(), Some(4));
    assert_eq!(b.pop(), Some(2));
    assert_eq!(b.pop(), Some(1));
    assert_eq!(b.pop(), None);
}

#[test]
fn value_cas_push_across_address_reuse_stays_correct() {
    let mut b = StackBad::new();
    b.push(1u32);
    b.push_begin(0, 9);
    assert_eq!(b.pop(), Some(1));
    b.push(5);
    assert!(b.push_commit(0));
    assert_eq!(b.pop(), Some(9));
    assert_eq!(b.pop(), Some(5));
    assert_eq!(b.pop(), None);
}

/// Two pushing agents hand in 0..1000 and 1000..2000 while two popping agents
/// each pop 1000 times through reservation and commit, interleaved step by step.
fn interleaved_run(popped: &mut Vec<usize>) -> StackHead<usize> {
    let mut s = StackHead::new();
    let mut next_push = [0usize, 1000usize];
    let mut pushing = [false, false];
    let mut pops_done = [0usize, 0usize];
    let mut reserved = [false, false];
    let mut round: usize = 0;
    while pops_done[0] < 1000 || pops_done[1] < 1000 {
        for p in 0..2 {
            if pops_done[p] < 1000 {
                if reserved[p] {
                    if let Some(v) = s.pop_commit(p) {
                        popped.push(v);
                        pops_done[p] += 1;
                    }
                    reserved[p] = false;
                } else {
                    reserved[p] = s.pop_begin(p);
                }
            }
        }
        let w = round % 2;
        let agent = 2 + w;
        if pushing[w] {
            if s.push_commit(agent) {
                pushing[w] = false;
                next_push[w] += 1;
            } else {
                s.push_retry(agent);
            }
        } else if next_push[w] < (w + 1) * 1000 && round % 3 != 2 {
            s.push_begin(agent, next_push[w]);
            pushing[w] = true;
        }
        round += 1;
    }
    s
}

#[test]
fn interleaved_agents_conserve_values() {
    let mut popped = Vec::new();
    let mut s = interleaved_run(&mut popped);
    assert_eq!(popped.len(), 2000);
    let mut sorted = popped.clone();
    sorted.sort();
    let expected: Vec<usize> = (0..2000).collect();
    assert_eq!(sorted, expected);
    assert_eq!(s.pop(), None);
}

#[test]
fn popped_values_are_never_repeated() {
    let mut popped = Vec::new();
    let _ = interleaved_run(&mut popped);
    let mut seen = vec![false; 2000];
    for v in popped {
        assert!(!seen[v]);
        seen[v] = true;
    }
}

struct Counted {
    drops: Rc<Cell<usize>>,
}

impl Drop for Counted {
    fn drop(&mut self) {
        self.drops.set(self.drops.get() + 1);
    }
}

#[test]
fn dropping_a_stack_releases_each_payload_once() {
    let drops = Rc::new(Cell::new(0usize));
    {
        let mut s = StackHead::new();
        for _ in 0..5 {
            s.push(Counted { drops: drops.clone() });
        }
        drop(s.pop());
        drop(s.pop());
        assert_eq!(drops.get(), 2);
    }
    assert_eq!(drops.get(), 5);
    {
        let mut b = StackBad::new();
        for _ in 0..4 {
            b.push(Counted { drops: drops.clone() });
        }
        drop(b.pop());
        b.push(Counted { drops: drops.clone() });
    }
    assert_eq!(drops.get(), 10);
    {
        let mut s = StackHead::new();
        s.push(Counted { drops: drops.clone() });
        s.push_begin(4, Counted { drops: drops.clone() });
    }
    assert_eq!(drops.get(), 12);
}
