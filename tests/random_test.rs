// Tests the tiered structure against the flat add-wins set.
use std::collections::HashSet;

use handoff_register::aworset_opt::AworsetOpt;
use handoff_register::handoff::Handoff;
use handoff_register::types::NodeId;

fn id(id: &str) -> NodeId {
    NodeId::new(1, id.to_string())
}

#[derive(Clone, Debug, PartialEq)]
enum Op {
    Rm(i32),
    Add(i32),
}

/// A fixed pseudo-random source.
struct Lcg(u64);

impl Lcg {
    fn next(&mut self) -> u64 {
        self.0 = self.0.wrapping_mul(6364136223846793005).wrapping_add(1442695040888963407);
        self.0 >> 33
    }

    fn range(&mut self, min: i32, max: i32) -> i32 {
        min + (self.next() % ((max - min) as u64)) as i32
    }
}

fn get_rand_oper(rng: &mut Lcg, min: i32, max: i32) -> Op {
    let element = rng.range(min, max);
    if rng.next() % 2 == 0 {
        Op::Add(element)
    } else {
        Op::Rm(element)
    }
}

fn gen_rnd_opers(rng: &mut Lcg, min: i32, max: i32, n_oper: i32) -> Vec<Op> {
    let mut operations = Vec::new();
    for _ in 0..n_oper {
        operations.push(get_rand_oper(rng, min, max));
    }
    operations
}

fn apply_aworset_oper(aworset_opt: &mut AworsetOpt<i32>, oper: Op) {
    match oper {
        Op::Rm(elem) => aworset_opt.rm(elem),
        Op::Add(elem) => aworset_opt.add(elem),
    }
}

/// Applies an operation to the client, then runs one hand-off round.
fn apply_handoff_oper(handoff_t0: &mut Handoff<i32>, handoff_t1: &mut Handoff<i32>, oper: Op) {
    match oper {
        Op::Rm(elem) => handoff_t1.rm_elem(elem),
        Op::Add(elem) => {
            handoff_t1.add_elem(elem);
        },
    }
    handoff_t0.merge(handoff_t1); // Create slot
    handoff_t1.merge(handoff_t0); // Create token
    handoff_t0.merge(handoff_t1); // Fill slot
    handoff_t1.merge(handoff_t0); // Discard token
}

fn run(seed: u64, min: i32, max: i32, n_oper: i32) -> (HashSet<i32>, HashSet<i32>, HashSet<i32>) {
    let mut rng = Lcg(seed);
    let mut handoff_t0: Handoff<i32> = Handoff::new(id("A"), 0);
    let mut handoff_t1: Handoff<i32> = Handoff::new(id("B"), 1);
    let mut aworset_opt: AworsetOpt<i32> = AworsetOpt::new(NodeId::new(1, "C".to_string()));
    let opers = gen_rnd_opers(&mut rng, min, max, n_oper);
    for oper in opers.iter() {
        apply_aworset_oper(&mut aworset_opt, oper.clone());
        apply_handoff_oper(&mut handoff_t0, &mut handoff_t1, oper.clone());
    }
    let elems_aworset = aworset_opt.elements().into_iter().collect();
    let elems_h1 = handoff_t1.fetch().into_iter().collect();
    let elems_h0 = handoff_t0.fetch().into_iter().collect();
    (elems_aworset, elems_h0, elems_h1)
}

#[test]
fn random_test_multiple_tests() {
    for i in 0..100 {
        let (aworset, h0, h1) = run(i as u64, 0, 10, i);
        assert_eq!(aworset, h0);
        assert_eq!(aworset, h1);
        let (aworset, h0, h1) = run(1000 + i as u64, 0, 100, i);
        assert_eq!(aworset, h0);
        assert_eq!(aworset, h1);
    }
}

/// One client and one server; operations arrive at random points of the
/// merge cycle, and a final cycle drains what is pending.
fn run_interleaved(seed: u64) -> (HashSet<i32>, HashSet<i32>, HashSet<i32>) {
    let mut rng = Lcg(seed);
    let mut cli: Handoff<i32> = Handoff::new(id("C"), 1);
    let mut server: Handoff<i32> = Handoff::new(id("S"), 0);
    let mut opers = gen_rnd_opers(&mut rng, 1, 10, 10);
    let mut aworset: AworsetOpt<i32> = AworsetOpt::new(NodeId::new(1, "AW".to_string()));
    let mut curr_step = 4;
    while !opers.is_empty() {
        let apply_oper = rng.next() % 20;
        if apply_oper > 14 || curr_step == 4 {
            let op = opers.remove(0);
            match op.clone() {
                Op::Rm(e) => cli.rm_elem(e),
                Op::Add(e) => {
                    cli.add_elem(e);
                },
            }
            apply_aworset_oper(&mut aworset, op);
        }
        if curr_step % 2 == 0 {
            server.merge(&cli);
        } else {
            cli.merge(&server);
        }
        curr_step -= 1;
        if curr_step == 0 {
            curr_step = 4;
        }
    }
    while curr_step >= 0 {
        if curr_step % 2 == 0 {
            server.merge(&cli);
        } else {
            cli.merge(&server);
        }
        curr_step -= 1;
    }
    let elems_aworset = aworset.elements().into_iter().collect();
    (elems_aworset, server.fetch().into_iter().collect(), cli.fetch().into_iter().collect())
}

#[test]
fn test_rnd_1x1_noseq() {
    for seed in 0..1000 {
        let res = run_interleaved(seed);
        assert_eq!(res.0, res.1, "seed {}", seed);
        assert_eq!(res.1, res.2, "seed {}", seed);
    }
}
