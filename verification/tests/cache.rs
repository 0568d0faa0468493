use agent_ng::api::{
    FromToFilter, Key, ObjectMeta, ObjectReference, ResourceReference, ResourceVariant,
    VirtualMachine, VirtualMachineInterface, VirtualMachineInterfaceSpec, VirtualNetwork,
};
use agent_ng::cache_controller::cache::{
    add_result, in_resource_list, is_complete_reference, kind_is, reference_to_cache_key,
    to_cache_key, to_v1_key, update_graph, Action, CacheReply, CacheStore, GetOutcome,
    NodeNotExist, ResourceKeyReferences,
};
use agent_ng::cache_controller::cache_key::CacheKey;
use agent_ng::cache_controller::graph::Graph;

fn v1_key(kind: &str, namespace: &str, name: &str) -> Key {
    Key { kind: kind.to_string(), namespace: namespace.to_string(), name: name.to_string() }
}

fn reference(kind: &str, namespace: &str, name: &str) -> ResourceReference {
    ResourceReference {
        object_reference: Some(ObjectReference {
            kind: Some(kind.to_string()),
            namespace: Some(namespace.to_string()),
            name: Some(name.to_string()),
        }),
    }
}

fn meta(name: &str) -> Option<ObjectMeta> {
    Some(ObjectMeta {
        name: Some(name.to_string()),
        namespace: Some("default".to_string()),
        labels: vec![("app".to_string(), name.to_string())],
    })
}

fn network(name: &str) -> VirtualNetwork {
    VirtualNetwork { metadata: meta(name) }
}

fn machine(name: &str) -> VirtualMachine {
    VirtualMachine { metadata: meta(name) }
}

fn interface(name: &str, vn: &str, vm: &str) -> VirtualMachineInterface {
    VirtualMachineInterface {
        metadata: meta(name),
        spec: Some(VirtualMachineInterfaceSpec {
            virtual_network_reference: Some(reference("VirtualNetwork", "default", vn)),
            virtual_machine_references: vec![reference("VirtualMachine", "default", vm)],
            virtual_machine_interface_references: vec![],
        }),
    }
}

#[test]
fn keys_convert_both_ways() {
    let k = v1_key("VirtualNetwork", "ns", "n");
    let c = to_cache_key(k.clone());
    assert_eq!(c, CacheKey { kind: "VirtualNetwork".into(), namespace: "ns".into(), name: "n".into() });
    assert_eq!(to_v1_key(c), k);
}

#[test]
fn reference_gives_its_key() {
    let r = reference("VirtualMachine", "ns", "vm");
    assert!(is_complete_reference(&r));
    assert_eq!(
        reference_to_cache_key(r),
        CacheKey { kind: "VirtualMachine".into(), namespace: "ns".into(), name: "vm".into() }
    );
    let partial = ResourceReference {
        object_reference: Some(ObjectReference { kind: Some("VirtualMachine".into()), namespace: None, name: None }),
    };
    assert!(!is_complete_reference(&partial));
    assert!(!is_complete_reference(&ResourceReference { object_reference: None }));
}

#[test]
fn resource_list_holds_the_cached_kinds() {
    assert!(in_resource_list(reference("VirtualNetwork", "a", "b")));
    assert!(in_resource_list(reference("VirtualMachineInterface", "a", "b")));
    assert!(!in_resource_list(reference("Pod", "a", "b")));
}

#[test]
fn kind_is_compares_whole_names() {
    assert!(kind_is(&"VirtualMachine".to_string(), "VirtualMachine"));
    assert!(!kind_is(&"VirtualMachine".to_string(), "VirtualMachineInterface"));
}

#[test]
fn add_result_hides_the_reason() {
    assert!(add_result(Ok(())).is_ok());
    assert!(add_result(Err(NodeNotExist)).is_err());
}

#[test]
fn update_graph_links_both_ways() {
    let mut g = Graph::new();
    let k = v1_key("VirtualMachineInterface", "default", "vmi");
    let refs = vec![reference("VirtualNetwork", "default", "vn"), reference("VirtualMachine", "default", "vm")];
    assert!(update_graph(&k, &refs, &mut g).is_ok());
    assert!(g.contains_node(to_cache_key(k.clone())));
    let vn = CacheKey { kind: "VirtualNetwork".into(), namespace: "default".into(), name: "vn".into() };
    let vm = CacheKey { kind: "VirtualMachine".into(), namespace: "default".into(), name: "vm".into() };
    // The referenced keys are not nodes themselves.
    assert!(!g.contains_node(vn.clone()));
    let filter = vec!["VirtualMachine".to_string(), "VirtualNetwork".to_string()];
    let r = g.traverse(to_cache_key(k.clone()), vm.clone(), filter.clone());
    assert_eq!(r, vec![vm.clone()]);
    g.add_node(vm.clone(), vm.clone());
    let r = g.traverse(vm.clone(), vn.clone(), vec!["VirtualMachineInterface".to_string(), "VirtualNetwork".to_string()]);
    assert_eq!(r, vec![vn]);
}

#[test]
fn get_after_add_gives_the_resource() {
    let mut store = CacheStore::new();
    let k = v1_key("VirtualNetwork", "default", "vn1");
    let r = store.add(ResourceKeyReferences::VirtualNetwork(network("vn1"), k.clone(), vec![]));
    assert!(r.is_ok());
    match store.get(k.clone()) {
        GetOutcome::Found(res) => {
            assert_eq!(res.resource, Some(ResourceVariant::VirtualNetwork(network("vn1"))))
        }
        other => panic!("unexpected {:?}", other),
    }
    // A second add under the same key replaces the resource.
    store.add(ResourceKeyReferences::VirtualNetwork(network("renamed"), k.clone(), vec![]));
    match store.get(k) {
        GetOutcome::Found(res) => {
            assert_eq!(res.resource, Some(ResourceVariant::VirtualNetwork(network("renamed"))))
        }
        other => panic!("unexpected {:?}", other),
    }
}

#[test]
fn get_of_missing_key_or_unknown_kind() {
    let mut store = CacheStore::new();
    store.add(ResourceKeyReferences::VirtualMachine(machine("vm1"), v1_key("VirtualMachine", "default", "vm1"), vec![]));
    // A lookup of a kept kind with nothing stored cannot be served.
    assert!(!store.can_get(&v1_key("VirtualMachine", "default", "vm2")));
    assert!(!store.is_action_ok(&Action::Get(v1_key("VirtualNetwork", "default", "vm1"))));
    assert!(store.can_get(&v1_key("VirtualMachine", "default", "vm1")));
    assert!(store.can_get(&v1_key("Pod", "default", "vm1")));
    assert!(matches!(store.get(v1_key("Pod", "default", "vm1")), GetOutcome::Unknown));
}

#[test]
fn resource_under_key_of_other_kind_is_not_found() {
    let mut store = CacheStore::new();
    // The machine is kept with the machines, but a lookup of its key goes to the networks.
    let k = v1_key("VirtualNetwork", "default", "x");
    store.add(ResourceKeyReferences::VirtualMachine(machine("x"), k.clone(), vec![]));
    assert!(!store.can_get(&k));
    assert!(!store.can_get(&v1_key("VirtualMachine", "default", "x")));
}

fn populated() -> CacheStore {
    let mut store = CacheStore::new();
    store.add(ResourceKeyReferences::VirtualNetwork(network("vn1"), v1_key("VirtualNetwork", "default", "vn1"), vec![]));
    store.add(ResourceKeyReferences::VirtualMachine(machine("vm1"), v1_key("VirtualMachine", "default", "vm1"), vec![]));
    let vmi = interface("vmi1", "vn1", "vm1");
    let refs = vec![reference("VirtualNetwork", "default", "vn1"), reference("VirtualMachine", "default", "vm1")];
    store.add(ResourceKeyReferences::VirtualMachineInterface(vmi, v1_key("VirtualMachineInterface", "default", "vmi1"), refs));
    store
}

#[test]
fn find_lists_the_reachable_resources() {
    let mut store = populated();
    let f = FromToFilter {
        from: Some(v1_key("VirtualMachine", "default", "vm1")),
        to: Some(v1_key("VirtualNetwork", "", "")),
        filter: vec!["VirtualMachineInterface".to_string(), "VirtualNetwork".to_string()],
    };
    assert!(store.can_find(&f));
    let list = store.find(f);
    assert_eq!(list.resources.len(), 1);
    assert_eq!(list.resources[0].resource, Some(ResourceVariant::VirtualNetwork(network("vn1"))));
}

#[test]
fn find_from_unknown_key_lists_nothing() {
    let mut store = populated();
    let f = FromToFilter {
        from: Some(v1_key("VirtualMachine", "default", "nope")),
        to: Some(v1_key("VirtualNetwork", "", "")),
        filter: vec!["VirtualMachineInterface".to_string(), "VirtualNetwork".to_string()],
    };
    assert!(store.can_find(&f));
    assert_eq!(store.find(f).resources.len(), 0);
}

#[test]
fn find_reaching_an_uncached_resource_gives_none() {
    let mut store = CacheStore::new();
    let refs = vec![reference("VirtualNetwork", "default", "ghost")];
    let vmi = interface("vmi1", "ghost", "vm1");
    store.add(ResourceKeyReferences::VirtualMachineInterface(vmi, v1_key("VirtualMachineInterface", "default", "vmi1"), refs));
    let f = FromToFilter {
        from: Some(v1_key("VirtualMachineInterface", "default", "vmi1")),
        to: Some(v1_key("VirtualNetwork", "", "")),
        filter: vec!["VirtualNetwork".to_string()],
    };
    assert!(!store.can_find(&f));
    assert!(!store.is_action_ok(&Action::List(f)));
}

#[test]
fn handle_serves_each_request() {
    let mut store = CacheStore::new();
    let k = v1_key("VirtualMachine", "default", "vm1");
    let add = Action::Add(ResourceKeyReferences::VirtualMachine(machine("vm1"), k.clone(), vec![]));
    assert!(store.is_action_ok(&add));
    assert!(matches!(store.handle(add), CacheReply::Added(Ok(()))));
    match store.handle(Action::Get(k.clone())) {
        CacheReply::Got(GetOutcome::Found(res)) => {
            assert_eq!(res.resource, Some(ResourceVariant::VirtualMachine(machine("vm1"))))
        }
        other => panic!("unexpected {:?}", other),
    }
    let list = Action::List(FromToFilter { from: Some(k.clone()), to: Some(k.clone()), filter: vec![] });
    match store.handle(list) {
        CacheReply::Listed(l) => {
            assert_eq!(l.resources.len(), 1);
            assert_eq!(l.resources[0].resource, Some(ResourceVariant::VirtualMachine(machine("vm1"))));
        }
        other => panic!("unexpected {:?}", other),
    }
    let bad = Action::List(FromToFilter { from: None, to: Some(k), filter: vec![] });
    assert!(!store.is_action_ok(&bad));
    let bad_add = Action::Add(ResourceKeyReferences::VirtualMachine(
        machine("vm2"),
        v1_key("VirtualMachine", "default", "vm2"),
        vec![ResourceReference { object_reference: None }],
    ));
    assert!(!store.is_action_ok(&bad_add));
}

#[test]
fn get_after_other_requests_still_gives_the_resource() {
    let mut store = populated();
    let k = v1_key("VirtualNetwork", "default", "vn1");
    store.add(ResourceKeyReferences::VirtualNetwork(network("vn2"), v1_key("VirtualNetwork", "default", "vn2"), vec![]));
    store.add(ResourceKeyReferences::VirtualMachine(machine("vn1"), v1_key("VirtualMachine", "default", "vn1"), vec![]));
    let _ = store.get(v1_key("VirtualMachine", "default", "vm1"));
    let f = FromToFilter {
        from: Some(v1_key("VirtualMachine", "default", "vm1")),
        to: Some(v1_key("VirtualNetwork", "", "")),
        filter: vec!["VirtualMachineInterface".to_string(), "VirtualNetwork".to_string()],
    };
    let _ = store.find(f);
    assert!(store.can_get(&k));
    match store.get(k) {
        GetOutcome::Found(res) => assert_eq!(res.resource, Some(ResourceVariant::VirtualNetwork(network("vn1")))),
        other => panic!("unexpected {:?}", other),
    }
}
