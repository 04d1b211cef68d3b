use std::collections::HashSet;

use handoff_register::aworset_opt::AworsetOpt;
use handoff_register::handoff::Handoff;
use handoff_register::types::{Ck, NodeId};

fn fetch_set(h: &Handoff<i32>) -> HashSet<i32> {
    h.fetch().into_iter().collect()
}

fn node(name: &str, port: i64) -> NodeId {
    NodeId::new(port, name.to_string())
}

#[test]
fn handoff_cycle_step_by_step() {
    let mut c: Handoff<i32> = Handoff::new(node("C", 1), 1);
    let mut b: Handoff<i32> = Handoff::new(node("B", 1), 0);
    let p = c.add_elem(22);
    assert_eq!(p.n, 1);

    b.merge(&c); // create slot
    assert_eq!(b.slots, vec![(node("C", 1), Ck::new(1, 1))]);
    assert_eq!(b.ck, Ck::new(1, 2));

    c.merge(&b); // create token
    assert_eq!(c.tokens.len(), 1);
    assert_eq!((c.tokens[0].n_initial, c.tokens[0].n_final), (1, 2));
    assert_eq!(c.tokens[0].ck, Ck::new(1, 1));
    assert_eq!(c.ck.sck, 2);
    assert_eq!(c.last_send_n, 1);

    b.merge(&c); // fill slot
    assert!(b.slots.is_empty());
    assert_eq!(b.payload.len(), 1);
    assert_eq!(b.payload[0].0, node("B", 1));
    assert_eq!((b.payload[0].1.n, b.payload[0].1.elem), (1, 22));
    assert_eq!(b.transl.len(), 1);
    assert_eq!((b.transl[0].final_src, b.transl[0].final_dst), (1, 1));

    c.merge(&b); // translate and discard token
    assert!(c.tokens.is_empty());
    assert_eq!(c.payload.len(), 1);
    assert_eq!(c.payload[0].0, node("B", 1));

    b.merge(&c); // discard translation
    assert!(b.transl.is_empty());

    assert_eq!(fetch_set(&b), HashSet::from([22]));
    assert_eq!(fetch_set(&c), HashSet::from([22]));
}

/// Runs the five merges of one hand-off, removing 22 at the client after
/// `rm_at` of them.
fn cycle_with_removal(rm_at: usize) -> (HashSet<i32>, HashSet<i32>) {
    let mut c: Handoff<i32> = Handoff::new(node("C", 1), 1);
    let mut b: Handoff<i32> = Handoff::new(node("B", 1), 0);
    c.add_elem(22);
    for step in 0..5 {
        if step == rm_at {
            c.rm_elem(22);
        }
        if step % 2 == 0 {
            b.merge(&c);
        } else {
            c.merge(&b);
        }
    }
    (fetch_set(&b), fetch_set(&c))
}

#[test]
fn removal_at_every_point_of_a_handoff() {
    for rm_at in 0..5 {
        let (b, c) = cycle_with_removal(rm_at);
        assert_eq!(b, HashSet::new(), "server after removal at {}", rm_at);
        assert_eq!(c, HashSet::new(), "client after removal at {}", rm_at);
    }
}

#[test]
fn crash_of_the_receiver_is_tolerated() {
    let mut a: Handoff<i32> = Handoff::new(node("A", 1), 1);
    a.add_elem(22);
    let mut s1: Handoff<i32> = Handoff::new(node("S", 1), 0);
    let mut s2: Handoff<i32> = Handoff::new(node("S", 2), 0);

    s1.merge(&a); // slot at S1
    a.merge(&s1); // token for S1
    s2.merge(&a); // S2 caches the token; S1 is down
    assert_eq!(s2.tokens.len(), 1);
    assert!(s2.slots.is_empty() || s2.slots[0].0 == node("A", 1));

    s1.merge(&s2); // S1 is back and fills its slot from the cached token
    assert!(s1.slots.is_empty());
    assert_eq!(s1.payload.len(), 1);
    a.merge(&s1);
    s1.merge(&a);

    assert_eq!(fetch_set(&s1), HashSet::from([22]));
    assert_eq!(fetch_set(&a), HashSet::from([22]));
    assert!(a.tokens.is_empty());
    assert!(s1.transl.is_empty());
}

#[test]
fn merging_twice_reads_the_same() {
    let mut c: Handoff<i32> = Handoff::new(node("C", 1), 1);
    let mut s: Handoff<i32> = Handoff::new(node("S", 0), 0);
    c.add_elem(1);
    c.add_elem(2);
    for _ in 0..3 {
        s.merge(&c);
        let once = fetch_set(&s);
        s.merge(&c);
        assert_eq!(fetch_set(&s), once);
        c.merge(&s);
        let once = fetch_set(&c);
        c.merge(&s);
        assert_eq!(fetch_set(&c), once);
    }
}

#[test]
fn merge_order_of_independent_peers_does_not_matter() {
    let mut b: Handoff<i32> = Handoff::new(node("B", 0), 0);
    let mut c: Handoff<i32> = Handoff::new(node("C", 0), 0);
    b.add_elem(1);
    b.add_elem(2);
    c.add_elem(2);
    c.add_elem(3);
    c.rm_elem(3);
    let a: Handoff<i32> = Handoff::new(node("A", 0), 0);
    let mut a1 = a.clone();
    a1.merge(&b);
    a1.merge(&c);
    let mut a2 = a.clone();
    a2.merge(&c);
    a2.merge(&b);
    assert_eq!(fetch_set(&a1), fetch_set(&a2));
    assert_eq!(fetch_set(&a1), HashSet::from([1, 2]));
    let mut k1: Vec<_> = a1.cc.cc.iter().map(|d| (d.id.clone(), d.n)).collect();
    let mut k2: Vec<_> = a2.cc.cc.iter().map(|d| (d.id.clone(), d.n)).collect();
    k1.sort();
    k2.sort();
    assert_eq!(k1, k2);
}

#[test]
fn concurrent_add_wins_over_remove() {
    let mut x: Handoff<i32> = Handoff::new(node("X", 0), 0);
    let mut y: Handoff<i32> = Handoff::new(node("Y", 0), 0);
    x.add_elem(5);
    y.merge(&x);
    assert_eq!(fetch_set(&y), HashSet::from([5]));
    // Concurrently: X adds 5 again, Y removes 5.
    x.add_elem(5);
    y.rm_elem(5);
    let mut x1 = x.clone();
    let mut y1 = y.clone();
    x1.merge(&y1);
    y1.merge(&x1);
    assert!(fetch_set(&x1).contains(&5));
    assert!(fetch_set(&y1).contains(&5));
    let mut x2 = x.clone();
    let mut y2 = y.clone();
    y2.merge(&x2);
    x2.merge(&y2);
    assert!(fetch_set(&x2).contains(&5));
    assert!(fetch_set(&y2).contains(&5));
}

#[test]
fn removing_an_absent_element_changes_nothing() {
    let mut h: Handoff<i32> = Handoff::new(node("A", 1), 1);
    h.add_elem(1);
    let before = format!("{:?}", h);
    h.rm_elem(2);
    assert_eq!(format!("{:?}", h), before);
}

#[test]
fn no_slot_between_equal_tiers_or_without_updates() {
    let mut c: Handoff<i32> = Handoff::new(node("C", 1), 1);
    let mut d: Handoff<i32> = Handoff::new(node("D", 1), 1);
    c.add_elem(1);
    d.create_slot(&c);
    assert!(d.slots.is_empty());
    let mut s: Handoff<i32> = Handoff::new(node("S", 0), 0);
    let empty: Handoff<i32> = Handoff::new(node("E", 1), 1);
    s.create_slot(&empty);
    assert!(s.slots.is_empty());
    s.create_slot(&c);
    assert_eq!(s.slots.len(), 1);
    s.create_slot(&c);
    assert_eq!(s.slots.len(), 1);
    assert_eq!(s.ck.dck, 2);
}

#[test]
fn stale_slot_is_discarded() {
    let mut s: Handoff<i32> = Handoff::new(node("S", 0), 0);
    let mut c: Handoff<i32> = Handoff::new(node("C", 1), 1);
    c.add_elem(1);
    s.create_slot(&c);
    assert_eq!(s.slots.len(), 1);
    s.discard_slot(&c);
    assert_eq!(s.slots.len(), 1);
    c.ck.sck = 2;
    s.discard_slot(&c);
    assert!(s.slots.is_empty());
}

#[test]
fn own_entries_of_a_higher_tier_peer_are_not_joined() {
    let mut c: Handoff<i32> = Handoff::new(node("C", 1), 1);
    let mut s: Handoff<i32> = Handoff::new(node("S", 0), 0);
    c.add_elem(9);
    s.merge_vectors(&c);
    assert!(s.payload.is_empty());
    assert_eq!(s.cc.get_cc(&node("C", 1)), 0);
    let mut t: Handoff<i32> = Handoff::new(node("T", 0), 0);
    t.add_elem(4);
    s.merge_vectors(&t);
    assert_eq!(fetch_set(&s), HashSet::from([4]));
}

#[test]
fn flat_set_add_remove_join() {
    let mut a: AworsetOpt<i32> = AworsetOpt::new(node("A", 1));
    let mut b: AworsetOpt<i32> = AworsetOpt::new(node("B", 1));
    a.add(1);
    a.add(2);
    b.join(&a);
    b.rm(1);
    a.add(1);
    a.join(&b);
    b.join(&a);
    let ea: HashSet<i32> = a.elements().into_iter().collect();
    let eb: HashSet<i32> = b.elements().into_iter().collect();
    assert_eq!(ea, HashSet::from([1, 2]));
    assert_eq!(eb, HashSet::from([1, 2]));
    b.rm(2);
    a.join(&b);
    let ea: HashSet<i32> = a.elements().into_iter().collect();
    assert_eq!(ea, HashSet::from([1]));
}

/// A fixed pseudo-random source.
struct Lcg(u64);

impl Lcg {
    fn next(&mut self) -> u64 {
        self.0 = self.0.wrapping_mul(6364136223846793005).wrapping_add(1442695040888963407);
        self.0 >> 33
    }
}

#[test]
fn one_client_two_servers_converge_to_the_flat_set() {
    for seed in 0..30u64 {
        let mut rng = Lcg(seed);
        let mut c: Handoff<i32> = Handoff::new(node("C", 1), 1);
        let mut s0: Handoff<i32> = Handoff::new(node("S", 0), 0);
        let mut s1: Handoff<i32> = Handoff::new(node("S", 1), 0);
        let mut flat: AworsetOpt<i32> = AworsetOpt::new(node("F", 1));
        for _ in 0..20 {
            let e = (rng.next() % 6) as i32;
            if rng.next() % 3 == 0 {
                c.rm_elem(e);
                flat.rm(e);
            } else {
                c.add_elem(e);
                flat.add(e);
            }
            match rng.next() % 4 {
                0 => s0.merge(&c),
                1 => c.merge(&s0),
                2 => s1.merge(&c),
                _ => c.merge(&s1),
            }
        }
        for _ in 0..4 {
            s0.merge(&c);
            c.merge(&s0);
            s1.merge(&c);
            c.merge(&s1);
            s0.merge(&s1);
            s1.merge(&s0);
        }
        let expect: HashSet<i32> = flat.elements().into_iter().collect();
        assert_eq!(fetch_set(&c), expect, "client, seed {}", seed);
        assert_eq!(fetch_set(&s0), expect, "server 0, seed {}", seed);
        assert_eq!(fetch_set(&s1), expect, "server 1, seed {}", seed);
    }
}
