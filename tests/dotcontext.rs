use handoff_register::dotcontext::DotContext;
use handoff_register::types::{Dot, NodeId};

/// Creates a NodeId.
fn id(id: &str) -> NodeId {
    NodeId::new(1, id.to_string())
}

fn dotcontext_add_cc_vals(dotcontext: &mut DotContext, arr: &[(&str, i64)]) {
    for &(id_, n) in arr.iter() {
        dotcontext.insert_cc(&Dot::new(id(id_), n));
    }
}

fn dotcontext_add_dots(dotcontext: &mut DotContext, arr: &[(&str, i64)]) {
    for &(id_, n) in arr.iter() {
        dotcontext.insert_dc(&Dot::new(id(id_), n));
    }
}

fn get_dotcontext_1() -> DotContext {
    let mut dotcontext = DotContext::new();
    dotcontext_add_cc_vals(&mut dotcontext, &[("A", 3), ("B", 5), ("A", 4)]);
    dotcontext
}

fn counter(ctx: &DotContext, name: &str) -> i64 {
    ctx.get_cc(&id(name))
}

fn cloud(ctx: &DotContext) -> Vec<(String, i64)> {
    let mut v: Vec<(String, i64)> = ctx.dc.iter().map(|d| (d.id.addr.clone(), d.n)).collect();
    v.sort();
    v
}

/// Id entry exists
#[test]
fn makedot_1() {
    let mut dc1 = get_dotcontext_1();
    let dot = dc1.makedot(&id("A"));
    assert_eq!(Dot { id: id("A"), n: 5 }, dot);
}

/// Id entry does not exist
#[test]
fn makedot_2() {
    let mut dc1 = get_dotcontext_1();
    let dot = dc1.makedot(&id("C"));
    assert_eq!(Dot { id: id("C"), n: 1 }, dot);
}

#[test]
fn compact_folds_contiguous_dots() {
    let mut ctx = DotContext::new();
    dotcontext_add_cc_vals(&mut ctx, &[("A", 2)]);
    dotcontext_add_dots(&mut ctx, &[("A", 4), ("A", 3), ("A", 1), ("A", 7), ("B", 1), ("B", 2), ("C", 3)]);
    ctx.compact();
    assert_eq!(counter(&ctx, "A"), 4);
    assert_eq!(counter(&ctx, "B"), 2);
    assert_eq!(counter(&ctx, "C"), 0);
    assert_eq!(cloud(&ctx), vec![("A".to_string(), 7), ("C".to_string(), 3)]);
}

#[test]
fn compact_twice_changes_nothing() {
    let mut ctx = DotContext::new();
    dotcontext_add_cc_vals(&mut ctx, &[("A", 2)]);
    dotcontext_add_dots(&mut ctx, &[("A", 5), ("A", 3), ("B", 1), ("B", 3)]);
    ctx.compact();
    let once = (counter(&ctx, "A"), counter(&ctx, "B"), cloud(&ctx));
    ctx.compact();
    let twice = (counter(&ctx, "A"), counter(&ctx, "B"), cloud(&ctx));
    assert_eq!(once, twice);
    assert_eq!(once, (3, 1, vec![("A".to_string(), 5), ("B".to_string(), 3)]));
}

#[test]
fn compact_on_empty_context() {
    let mut ctx = DotContext::new();
    ctx.compact();
    assert!(ctx.cc.is_empty());
    assert!(ctx.dc.is_empty());
}

#[test]
fn dot_in_counts_compact_and_cloud() {
    let mut ctx = DotContext::new();
    dotcontext_add_cc_vals(&mut ctx, &[("A", 3)]);
    dotcontext_add_dots(&mut ctx, &[("A", 6)]);
    assert!(ctx.dot_in(&Dot::new(id("A"), 1)));
    assert!(ctx.dot_in(&Dot::new(id("A"), 3)));
    assert!(!ctx.dot_in(&Dot::new(id("A"), 4)));
    assert!(ctx.dot_in(&Dot::new(id("A"), 6)));
    assert!(!ctx.dot_in(&Dot::new(id("B"), 1)));
}

#[test]
fn join_takes_maxima_and_union() {
    let mut a = DotContext::new();
    dotcontext_add_cc_vals(&mut a, &[("A", 3), ("B", 1)]);
    dotcontext_add_dots(&mut a, &[("B", 3)]);
    let mut b = DotContext::new();
    dotcontext_add_cc_vals(&mut b, &[("A", 1), ("B", 2), ("C", 4)]);
    dotcontext_add_dots(&mut b, &[("A", 6)]);
    a.join(&b);
    assert_eq!(counter(&a, "A"), 3);
    assert_eq!(counter(&a, "B"), 3);
    assert_eq!(counter(&a, "C"), 4);
    assert_eq!(cloud(&a), vec![("A".to_string(), 6)]);
}

#[test]
fn join_is_commutative_on_knowledge() {
    let mut a = DotContext::new();
    dotcontext_add_cc_vals(&mut a, &[("A", 2)]);
    dotcontext_add_dots(&mut a, &[("B", 2)]);
    let mut b = DotContext::new();
    dotcontext_add_cc_vals(&mut b, &[("B", 1)]);
    dotcontext_add_dots(&mut b, &[("A", 4)]);
    let mut ab = a.clone();
    ab.join(&b);
    let mut ba = b.clone();
    ba.join(&a);
    for name in ["A", "B", "C"] {
        assert_eq!(counter(&ab, name), counter(&ba, name));
    }
    assert_eq!(cloud(&ab), cloud(&ba));
    assert_eq!(counter(&ab, "B"), 2);
}

#[test]
fn insert_dot_without_compaction_keeps_cloud() {
    let mut ctx = DotContext::new();
    ctx.insert_dot(&Dot::new(id("A"), 1), Some(false));
    assert_eq!(cloud(&ctx), vec![("A".to_string(), 1)]);
    ctx.insert_dot(&Dot::new(id("A"), 2), None);
    assert_eq!(counter(&ctx, "A"), 2);
    assert!(ctx.dc.is_empty());
}

#[test]
fn clean_id_forgets_an_origin() {
    let mut ctx = DotContext::new();
    dotcontext_add_cc_vals(&mut ctx, &[("A", 2), ("B", 1)]);
    dotcontext_add_dots(&mut ctx, &[("A", 5), ("B", 4)]);
    assert!(ctx.id_in(&id("A")));
    ctx.clean_id(&id("A"));
    assert!(!ctx.id_in(&id("A")));
    assert!(ctx.id_in(&id("B")));
    assert_eq!(cloud(&ctx), vec![("B".to_string(), 4)]);
}

#[test]
fn id_in_sees_cloud_only_origins() {
    let mut ctx = DotContext::new();
    dotcontext_add_dots(&mut ctx, &[("Z", 3)]);
    assert!(ctx.id_in(&id("Z")));
    assert!(!ctx.id_in(&id("Y")));
}

#[test]
fn byte_sizes() {
    let n = NodeId::new(7, "héllo".to_string());
    assert_eq!(n.get_num_bytes(), 6 + 8);
    let d = Dot::new(n.clone(), 3);
    assert_eq!(d.get_num_bytes(), 6 + 16);
}
