use std::collections::HashSet;

use handoff_register::handoff::Handoff;
use handoff_register::types::NodeId;

fn fetch_strings(h: &Handoff<String>) -> HashSet<String> {
    h.fetch().into_iter().collect()
}

/// A fixed pseudo-random sequence of short alphanumeric strings.
fn strings(count: usize, seed: u64) -> Vec<String> {
    let alphabet: Vec<char> = "ABCDEFGHIJKLMNOPQRSTUVWXYZabcdefghijklmnopqrstuvwxyz0123456789".chars().collect();
    let mut state = seed;
    let mut out = Vec::new();
    for _ in 0..count {
        let mut s = String::new();
        for _ in 0..7 {
            state = state.wrapping_mul(6364136223846793005).wrapping_add(1442695040888963407);
            s.push(alphabet[((state >> 33) % alphabet.len() as u64) as usize]);
        }
        out.push(s);
    }
    out
}

#[test]
fn test_add_elem() {
    // Arrange
    let node_id = NodeId::new(1, "A".to_string());
    let mut handoff = Handoff::new(node_id, 0);

    let mut expect = HashSet::new();
    expect.insert("A".to_string());

    // Act
    handoff.add_elem("A".to_string());

    // Assert
    let elems = fetch_strings(&handoff);
    assert_eq!(elems, expect);
}

#[test]
fn test_add_elem_random() {
    // Arrange
    let number_of_strings = 10;
    let mut expect = HashSet::new();
    for s in strings(number_of_strings, 42) {
        expect.insert(s);
    }

    let node_id = NodeId::new(0, "A".to_string());
    let mut handoff = Handoff::new(node_id, 0);

    expect.iter().for_each(|elem| {
        handoff.add_elem(elem.clone());
    });

    assert_eq!(fetch_strings(&handoff), expect);
}

#[test]
fn test_rm_elem() {
    // Arrange
    let node_id = NodeId::new(1, "A".to_string());
    let mut handoff = Handoff::new(node_id, 0);

    let expect = HashSet::new();

    // Act
    handoff.add_elem("A".to_string());
    handoff.add_elem("A".to_string());
    handoff.rm_elem("A".to_string());
    // Assert
    let elems = fetch_strings(&handoff);
    assert_eq!(elems, expect);
}

#[test]
fn fetch_lists_each_element_once() {
    let mut handoff: Handoff<String> = Handoff::new(NodeId::new(1, "A".to_string()), 0);
    handoff.add_elem("x".to_string());
    handoff.add_elem("x".to_string());
    handoff.add_elem("y".to_string());
    let v = handoff.fetch();
    assert_eq!(v.len(), 2);
}
