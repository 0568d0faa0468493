use agent_ng::cache_controller::cache_key::CacheKey;
use agent_ng::cache_controller::graph::Graph;

fn key(kind: &str, namespace: &str, name: &str) -> CacheKey {
    CacheKey { kind: kind.to_string(), namespace: namespace.to_string(), name: name.to_string() }
}

fn strings(items: &[&str]) -> Vec<String> {
    items.iter().map(|s| s.to_string()).collect()
}

fn linked(g: &mut Graph, a: &CacheKey, b: &CacheKey) {
    g.add_edge(a.clone(), b.clone());
    g.add_edge(b.clone(), a.clone());
}

#[test]
fn add_node_returns_previous_node() {
    let mut g = Graph::new();
    let k = key("VirtualNetwork", "default", "vn1");
    assert_eq!(g.add_node(k.clone(), k.clone()), None);
    let other = key("VirtualNetwork", "default", "other");
    assert_eq!(g.add_node(k.clone(), other.clone()), Some(k.clone()));
    assert_eq!(g.add_node(k.clone(), k.clone()), Some(other));
}

#[test]
fn contains_node_sees_added_nodes_only() {
    let mut g = Graph::new();
    let k = key("VirtualMachine", "default", "vm1");
    assert!(!g.contains_node(k.clone()));
    g.add_node(k.clone(), k.clone());
    assert!(g.contains_node(k.clone()));
    assert!(!g.contains_node(key("VirtualMachine", "other", "vm1")));
}

#[test]
fn traverse_from_unknown_node_finds_nothing() {
    let mut g = Graph::new();
    let vn = key("VirtualNetwork", "default", "vn1");
    let vm = key("VirtualMachine", "default", "vm1");
    linked(&mut g, &vn, &vm);
    let r = g.traverse(vm.clone(), key("VirtualNetwork", "", ""), strings(&["VirtualNetwork"]));
    assert!(r.is_empty());
}

#[test]
fn traverse_from_node_of_sought_kind_finds_it_alone() {
    let mut g = Graph::new();
    let vn = key("VirtualNetwork", "default", "vn1");
    let vn2 = key("VirtualNetwork", "default", "vn2");
    g.add_node(vn.clone(), vn.clone());
    g.add_node(vn2.clone(), vn2.clone());
    linked(&mut g, &vn, &vn2);
    let r = g.traverse(vn.clone(), key("VirtualNetwork", "", ""), strings(&["VirtualNetwork"]));
    assert_eq!(r, vec![vn]);
}

#[test]
fn traverse_goes_through_filtered_kinds() {
    let mut g = Graph::new();
    let vn = key("VirtualNetwork", "default", "vn1");
    let vmi = key("VirtualMachineInterface", "default", "vmi1");
    let vm = key("VirtualMachine", "default", "vm1");
    for k in [&vn, &vmi, &vm] {
        g.add_node(k.clone(), k.clone());
    }
    linked(&mut g, &vmi, &vn);
    linked(&mut g, &vmi, &vm);
    let to = key("VirtualNetwork", "", "");
    let r = g.traverse(vm.clone(), to.clone(), strings(&["VirtualMachineInterface", "VirtualNetwork"]));
    assert_eq!(r, vec![vn.clone()]);
    // Without interfaces in the filter the network is out of reach.
    let r = g.traverse(vm.clone(), to, strings(&["VirtualNetwork"]));
    assert!(r.is_empty());
}

#[test]
fn traverse_finds_each_key_once_in_breadth_first_order() {
    let mut g = Graph::new();
    let vm = key("VirtualMachine", "default", "vm1");
    let i1 = key("VirtualMachineInterface", "default", "i1");
    let i2 = key("VirtualMachineInterface", "default", "i2");
    let n1 = key("VirtualNetwork", "default", "n1");
    let n2 = key("VirtualNetwork", "default", "n2");
    g.add_node(vm.clone(), vm.clone());
    linked(&mut g, &vm, &i1);
    linked(&mut g, &vm, &i2);
    linked(&mut g, &i1, &n2);
    linked(&mut g, &i2, &n2);
    linked(&mut g, &i2, &n1);
    // Adding an edge twice keeps one copy of it.
    g.add_edge(i2.clone(), n1.clone());
    let r = g.traverse(
        vm.clone(),
        key("VirtualNetwork", "", ""),
        strings(&["VirtualMachineInterface", "VirtualNetwork", "VirtualMachine"]),
    );
    assert_eq!(r, vec![n2, n1]);
}

#[test]
fn traverse_stops_at_nodes_of_sought_kind() {
    let mut g = Graph::new();
    let a = key("VirtualNetwork", "default", "a");
    let b = key("VirtualNetwork", "default", "b");
    let m = key("VirtualMachine", "default", "m");
    let c = key("VirtualNetwork", "default", "c");
    g.add_node(m.clone(), m.clone());
    g.add_edge(m.clone(), a.clone());
    g.add_edge(a.clone(), b.clone());
    g.add_edge(m.clone(), c.clone());
    let r = g.traverse(m, key("VirtualNetwork", "", ""), strings(&["VirtualNetwork"]));
    assert_eq!(r, vec![a, c]);
}

#[test]
fn edges_do_not_make_nodes() {
    let mut g = Graph::new();
    let a = key("VirtualNetwork", "default", "a");
    let b = key("VirtualMachine", "default", "b");
    g.add_edge(a.clone(), b.clone());
    g.add_edge(b.clone(), a.clone());
    assert!(!g.contains_node(a.clone()));
    assert!(!g.contains_node(b.clone()));
    g.add_node(b.clone(), b.clone());
    assert!(g.contains_node(b));
    assert!(!g.contains_node(a));
}

#[test]
fn more_kinds_in_the_filter_lose_no_result() {
    let mut g = Graph::new();
    let vm = key("VirtualMachine", "default", "vm1");
    let i1 = key("VirtualMachineInterface", "default", "i1");
    let n1 = key("VirtualNetwork", "default", "n1");
    let n2 = key("VirtualNetwork", "default", "n2");
    let m2 = key("VirtualMachine", "default", "vm2");
    g.add_node(vm.clone(), vm.clone());
    linked(&mut g, &vm, &i1);
    linked(&mut g, &i1, &n1);
    linked(&mut g, &vm, &m2);
    linked(&mut g, &m2, &n2);
    let to = key("VirtualNetwork", "", "");
    let narrow = g.traverse(vm.clone(), to.clone(), strings(&["VirtualMachineInterface", "VirtualNetwork"]));
    let wide = g.traverse(
        vm.clone(),
        to,
        strings(&["VirtualMachineInterface", "VirtualNetwork", "VirtualMachine"]),
    );
    assert_eq!(narrow, vec![n1.clone()]);
    for k in &narrow {
        assert!(wide.contains(k));
    }
    assert_eq!(wide.len(), 2);
    assert!(wide.contains(&n2));
}
