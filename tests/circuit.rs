use workpool::circuit::{CircuitTree, Node, NodeFunction};

fn build_sample_circuit() -> CircuitTree {
    let mut tree = CircuitTree::new();
    tree.add("-", Node::new("gen1", NodeFunction::Generator(true)));
    tree.add("gen1", Node::new("sw01", NodeFunction::Switch(false)));
    tree.add("sw01", Node::new("l01", NodeFunction::Light));
    tree
}

#[test]
fn test_add_and_get_node() {
    let tree = build_sample_circuit();
    assert!(tree.get("sw01").is_some());
    assert!(tree.get("missing").is_none());
}

#[test]
fn test_light_status_off_initially() {
    let tree = build_sample_circuit();
    let status = tree.light_status("l01");
    assert!(status.is_ok());
    assert_eq!(status.unwrap(), false);
}

#[test]
fn test_turn_light_on() {
    let mut tree = build_sample_circuit();
    let _ = tree.turn_light_on("l01");
    let status = tree.light_status("l01").unwrap();
    assert_eq!(status, true);
}

#[test]
#[should_panic(expected = "not a light")]
fn test_light_status_on_non_light_panics() {
    let tree = build_sample_circuit();
    let _ = tree.light_status("sw01").unwrap();
}

#[test]
fn test_switch_toggle() {
    let mut node = Node::new("sw01", NodeFunction::Switch(false));
    assert!(node.switch().is_ok());
    if let NodeFunction::Switch(status) = node.function() {
        assert!(status);
    } else {
        panic!("Wrong function type");
    }
}

#[test]
fn light_cannot_be_switched() {
    let mut node = Node::new("l02", NodeFunction::Light);
    assert_eq!(node.switch(), Err(()));
    assert_eq!(node.function(), NodeFunction::Light);
}

#[test]
fn generator_toggles_back_and_forth() {
    let mut node = Node::new("g", NodeFunction::Generator(true));
    node.switch().unwrap();
    assert_eq!(node.function(), NodeFunction::Generator(false));
    node.switch().unwrap();
    assert_eq!(node.function(), NodeFunction::Generator(true));
}

#[test]
fn light_status_errors_name_their_cause() {
    let mut tree = build_sample_circuit();
    assert_eq!(tree.light_status("nope"), Err("node not found".to_string()));
    tree.add("-", Node::new("lonely", NodeFunction::Light));
    assert_eq!(tree.light_status("lonely"), Err("no parent switch".to_string()));
    tree.add("l01", Node::new("l02", NodeFunction::Light));
    assert_eq!(
        tree.light_status("l02"),
        Err("parent is not a switch or generator".to_string())
    );
    assert_eq!(tree.turn_light_on("gen1"), Err("not a light".to_string()));
}

#[test]
fn light_under_generator_follows_generator() {
    let mut tree = build_sample_circuit();
    tree.add("gen1", Node::new("l03", NodeFunction::Light));
    assert_eq!(tree.light_status("l03"), Ok(true));
    assert_eq!(tree.light_status("l01"), Ok(false));
}
