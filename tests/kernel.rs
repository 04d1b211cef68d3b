use std::collections::HashSet;

use handoff_register::dotcontext::DotContext;
use handoff_register::handoff::{Handoff, Token, Transl};
use handoff_register::kernel::Kernel;
use handoff_register::types::{Ck, Dot, NodeId, Payload};

fn node(name: &str) -> NodeId {
    NodeId::new(1, name.to_string())
}

fn elems(k: &Kernel<i32>) -> HashSet<i32> {
    k.elements().into_iter().collect()
}

#[test]
fn kernel_add_rm_and_buckets() {
    let mut k: Kernel<i32> = Kernel::new(&node("A"));
    let p = k.add(4);
    assert_eq!((p.n, p.elem), (1, 4));
    k.add(5);
    k.insert_dot_elem(Dot::new(node("B"), 3), &7);
    assert_eq!(elems(&k), HashSet::from([4, 5, 7]));
    let a: HashSet<Payload<i32>> = k.get_ti(&node("A")).into_iter().collect();
    assert_eq!(a, HashSet::from([Payload::new(1, 4), Payload::new(2, 5)]));
    assert!(k.has_element(&node("B"), &Payload::new(3, 7)));
    assert!(!k.has_element(&node("A"), &Payload::new(3, 7)));
    assert!(k.has_seen(&node("B")));
    assert!(!k.has_seen(&node("C")));
    k.rm(&5);
    assert_eq!(elems(&k), HashSet::from([4, 7]));
    k.clean_id(&node("B"));
    assert_eq!(elems(&k), HashSet::from([4]));
    assert!(!k.has_seen(&node("B")));
    k.add_cc(&Dot::new(node("C"), 2));
    assert!(k.has_seen(&node("C")));
}

#[test]
fn kernel_join_is_add_wins() {
    let mut a: Kernel<i32> = Kernel::new(&node("A"));
    let mut b: Kernel<i32> = Kernel::new(&node("B"));
    a.add(1);
    b.join(&a);
    b.rm(&1);
    a.add(1);
    let mut ab = a.clone();
    ab.join(&b);
    let mut ba = b.clone();
    ba.join(&a);
    assert_eq!(elems(&ab), HashSet::from([1]));
    assert_eq!(elems(&ba), HashSet::from([1]));
    // The first add was removed at b: only the second one survives.
    assert_eq!(ab.get_ti(&node("A")), vec![Payload::new(2, 1)]);
}

#[test]
fn byte_counts_of_a_replica() {
    let mut ctx = DotContext::new();
    assert_eq!(ctx.get_num_bytes(), 0);
    ctx.insert_cc(&Dot::new(node("AB"), 3));
    ctx.insert_dc(&Dot::new(node("C"), 7));
    // Compact entry: 2 + 8 for the origin, 8 for its counter; cloud dot: 1 + 8 for the origin, 8 for n.
    assert_eq!(ctx.get_num_bytes(), 18 + 17);

    let mut h: Handoff<i32> = Handoff::new(node("S"), 0);
    let empty = h.get_num_bytes();
    // Identity 1 + 8, tier 4, clocks 16, last sent counter 8.
    assert_eq!(empty, 9 + 4 + 16 + 8);
    let payload = Payload::new(1, 5i32).get_num_bytes();
    assert_eq!(payload, 8 + 4);
    h.payload.push((node("S"), Payload::new(1, 5)));
    assert_eq!(h.get_num_bytes(), empty + 9 + payload);
    h.slots.push((node("C"), Ck::new(1, 1)));
    assert_eq!(h.get_num_bytes(), empty + 9 + payload + 9 + 16);
    h.transl.push(Transl { src: node("C"), dst: node("S"), ck: Ck::new(1, 1), final_src: 1, final_dst: 1 });
    assert_eq!(h.get_num_bytes(), empty + 9 + payload + 25 + 18 + 32);
    h.tokens.push(Token {
        src: node("S"),
        dst: node("T"),
        ck: Ck::new(1, 1),
        n_initial: 1,
        n_final: 3,
        elems: vec![Payload::new(1, 5), Payload::new(2, 6)],
    });
    assert_eq!(h.get_num_bytes(), empty + 9 + payload + 25 + 50 + 18 + 32 + 2 * payload);
    assert_eq!(Ck::new(1, 1).get_num_bytes(), 16);
}
