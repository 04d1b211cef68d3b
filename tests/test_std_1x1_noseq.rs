use std::collections::HashSet;

use handoff_register::handoff::Handoff;
use handoff_register::types::NodeId;

fn fetch_set(h: &Handoff<i32>) -> HashSet<i32> {
    h.fetch().into_iter().collect()
}

fn show_blue(oper: &str, h: &Handoff<i32>) {
    println!("[{}] {:?}", oper, h);
}

fn show_red(oper: &str, h: &Handoff<i32>) {
    println!("[{}] {:?}", oper, h);
}

fn id(name: &str, port: i64) -> NodeId {
    NodeId::new(port, name.to_string())
}

fn apply_sequence(mut h0: Handoff<i32>, mut h1: Handoff<i32>) -> (Handoff<i32>, Handoff<i32>){

    h0.merge(&h1); show_blue("CREATE SLOT", &h0);
    h1.merge(&h0); show_blue("CREATE TOKEN", &h1);
    h0.merge(&h1); show_blue("FILL SLOT",&h0);
    h1.merge(&h0); show_blue("DISCARD TOKEN", &h1);
    h0.merge(&h1); show_blue("DISCARD TRANSLATION", &h0);

    (h0, h1)
}

#[test]
fn test_std_1x1_noseq_rm_element() {
    let mut handoff: Handoff<i32> = Handoff::new(NodeId::new(1, "A".to_string()), 1);
    handoff.rm_elem(21);
    println!("{:?}", handoff);
}
/// There are no failures and no removals.
#[test]
fn test_std_1x1_noseq_test_add() {
    let mut h1: Handoff<i32> = Handoff::new(NodeId::new(1, "A".to_string()), 1);
    h1.add_elem(22);
    let mut h0: Handoff<i32> = Handoff::new(NodeId::new(1, "B".to_string()), 0);

    h0.merge(&h1); show_blue("CREATE SLOT", &h0);
    h1.merge(&h0); show_blue("CREATE TOKEN", &h1);
    h0.merge(&h1); show_blue("FILL SLOT", &h0);
    h1.merge(&h0); show_blue("DISCARD TOKEN", &h1);
    h0.merge(&h1); show_blue("DISCARD TRANSLATION", &h0);
}
#[test]
fn test_std_1x1_noseq_test_rm_1() {
    let mut h1: Handoff<i32> = Handoff::new(NodeId::new(1, "A".to_string()), 1);
    h1.add_elem(22);
    let mut h0: Handoff<i32> = Handoff::new(NodeId::new(1, "B".to_string()), 0);

    h1.rm_elem(22); show_red("RM 22", &h1);
    h0.merge(&h1); show_blue("CREATE SLOT", &h0);
    h1.merge(&h0); show_blue("CREATE TOKEN", &h1);
    h0.merge(&h1); show_blue("FILL SLOT", &h0);
    h1.merge(&h0); show_blue("DISCARD TOKEN", &h1);
    h0.merge(&h1); show_blue("DISCARD TRANSLATION", &h0);


    assert_eq!(HashSet::new(), fetch_set(&h1));
    assert_eq!(HashSet::new(), fetch_set(&h0));

}
#[test]
fn test_std_1x1_noseq_test_rm_2() {
    let mut h1: Handoff<i32> = Handoff::new(NodeId::new(1, "A".to_string()), 1);
    h1.add_elem(22);
    let mut h0: Handoff<i32> = Handoff::new(NodeId::new(1, "B".to_string()), 0);

    h0.merge(&h1); show_blue("CREATE SLOT", &h0);
    h1.rm_elem(22); show_red("RM 22", &h1);
    h1.merge(&h0); show_blue("CREATE TOKEN", &h1);
    h0.merge(&h1); show_blue("FILL SLOT", &h0);
    h1.merge(&h0); show_blue("DISCARD TOKEN", &h1);
    h0.merge(&h1); show_blue("DISCARD TRANSLATION", &h0);

    assert_eq!(HashSet::new(), fetch_set(&h1));
    assert_eq!(HashSet::new(), fetch_set(&h0));

}
#[test]
fn test_std_1x1_noseq_test_rm_3() {
    let mut h1: Handoff<i32> = Handoff::new(NodeId::new(1, "A".to_string()), 1);
    h1.add_elem(22);
    let mut h0: Handoff<i32> = Handoff::new(NodeId::new(1, "B".to_string()), 0);

    h0.merge(&h1); show_blue("CREATE SLOT", &h0);
    h1.merge(&h0); show_blue("CREATE TOKEN", &h1);
    h1.rm_elem(22); show_red("RM 22", &h1);
    h0.merge(&h1); show_blue("FILL SLOT", &h0);
    h1.merge(&h0); show_blue("DISCARD TOKEN", &h1);
    h0.merge(&h1); show_blue("DISCARD TRANSLATION", &h0);

    assert_eq!(HashSet::new(), fetch_set(&h1));
    assert_eq!(HashSet::new(), fetch_set(&h0));
}
#[test]
fn test_std_1x1_noseq_test_rm_4() {
    let mut h1: Handoff<i32> = Handoff::new(NodeId::new(1, "A".to_string()), 1);
    h1.add_elem(22);
    let mut h0: Handoff<i32> = Handoff::new(NodeId::new(1, "B".to_string()), 0);

    h0.merge(&h1); show_blue("CREATE SLOT", &h0);
    h1.merge(&h0); show_blue("CREATE TOKEN", &h1);
    h0.merge(&h1); show_blue("FILL SLOT", &h0);
    h1.rm_elem(22); show_red("RM 22", &h1);
    h1.merge(&h0); show_blue("DISCARD TOKEN", &h1);
    h0.merge(&h1); show_blue("DISCARD TRANSLATION", &h0);

    assert_eq!(HashSet::new(), fetch_set(&h1));
    assert_eq!(HashSet::new(), fetch_set(&h0));

}
#[test]
fn test_std_1x1_noseq_test_rm_5() {
    let mut h1: Handoff<i32> = Handoff::new(NodeId::new(1, "A".to_string()), 1);
    h1.add_elem(22);
    let mut h0: Handoff<i32> = Handoff::new(NodeId::new(1, "B".to_string()), 0);

    h0.merge(&h1); show_blue("CREATE SLOT", &h0);
    h1.merge(&h0); show_blue("CREATE TOKEN", &h1);
    h0.merge(&h1); show_blue("FILL SLOT", &h0);
    h1.merge(&h0); show_blue("DISCARD TOKEN", &h1);
    h1.rm_elem(22); show_red("RM 22", &h1);
    h0.merge(&h1); show_blue("DISCARD TRANSLATION", &h0);

    assert_eq!(HashSet::new(), fetch_set(&h1));
    assert_eq!(HashSet::new(), fetch_set(&h0));

}
#[test]
fn test_add_1() {
    let mut h1: Handoff<i32> = Handoff::new(NodeId::new(1, "A".to_string()), 1);
    h1.add_elem(22);
    let mut h0: Handoff<i32> = Handoff::new(NodeId::new(1, "B".to_string()), 0);

    h0.merge(&h1); show_blue("CREATE SLOT", &h0);
    h1.merge(&h0); show_blue("CREATE TOKEN", &h1);
    h0.merge(&h1); show_blue("FILL SLOT", &h0);
    h1.add_elem(3); show_red("ADD 3", &h1);
    h1.merge(&h0); show_blue("DISCARD TOKEN", &h1);
    h0.merge(&h1); show_blue("DISCARD TRANSLATION", &h0);

    assert_eq!(HashSet::from([3,22]), fetch_set(&h1));
    assert_eq!(HashSet::from([22]), fetch_set(&h0));

}
#[test]
fn test_std_seq_1(){
    // Arrange
    let mut h1: Handoff<i32> = Handoff::new(NodeId::new(1, "A".to_string()), 1);
    let mut h0: Handoff<i32> = Handoff::new(NodeId::new(1, "B".to_string()), 0);
    let mut result = HashSet::new();
    result.insert(2000);
    result.insert(3000);

    // Act
    h1.add_elem(1000);
    let (mut h0, mut h1) = apply_sequence(h0, h1);
    h1.add_elem(2000);
    let (mut h0, mut h1) = apply_sequence(h0, h1);
    h1.add_elem(3000);
    let (mut h0, mut h1) = apply_sequence(h0, h1);
    h1.rm_elem(1000);
    let (mut h0, mut h1) = apply_sequence(h0, h1);


    // Assert
    assert_eq!(fetch_set(&h1), result);
    assert_eq!(fetch_set(&h0), result);
}
#[test]
fn test_translation() {
    // Arrange
    let client_node_id = NodeId::new(1, "A".to_string());
    let h1: Handoff<i32> = Handoff::new(client_node_id.clone(), 1);
    let h0: Handoff<i32> = Handoff::new(NodeId::new(1, "B".to_string()), 0);
    let mut result = HashSet::new();
    result.insert(1000);

    // Act
    let mut h1 = h1;
    h1.add_elem(1000);
    let (h0, h1) = apply_sequence(h0, h1);

    let a1_elems: Vec<_> = h1.payload.iter().filter(|(o, _)| *o == client_node_id).collect();
    assert_eq!(a1_elems.is_empty(), true);

    // Assert
    assert_eq!(fetch_set(&h1), result);
    assert_eq!(fetch_set(&h0), result);
}
