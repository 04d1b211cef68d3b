use std::collections::HashSet;

use handoff_register::handoff::Handoff;
use handoff_register::types::NodeId;

fn fetch_set(h: &Handoff<i32>) -> HashSet<i32> {
    h.fetch().into_iter().collect()
}

fn show_blue(oper: &str, h: &Handoff<i32>) {
    println!("[{}] {:?}", oper, h);
}

fn show_red(oper: &str, h: &Handoff<i32>) {
    println!("[{}] {:?}", oper, h);
}

fn id(name: &str, port: i64) -> NodeId {
    NodeId::new(port, name.to_string())
}

#[test]
fn add(){
    let mut h: Handoff<i32> = Handoff::new(NodeId::new(1, "S".to_string()), 0);
    h.add_elem(1);
    h.add_elem(1);
    println!("{:?}", h);
}