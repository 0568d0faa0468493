use agent_ng::api::{Key, KeyAction, KeyActionKind, ObjectMeta, ObjectReference, ResourceReference, ResourceVariant,
    VirtualMachine, VirtualMachineInterface, VirtualMachineInterfaceSpec};
use agent_ng::cache_controller::cache::{AddError, ResourceKeyReferences};
use agent_ng::config::{config_file_path, Config};
use agent_ng::config_controller::cli::cli::Config as CliConfig;
use agent_ng::config_controller::cn2::cn2::{get_node, CN2ConfigController, Config as Cn2Config};
use agent_ng::config_controller::cn2::resources::resource::{
    action_from_i32, action_to_i32, after_cache_add, after_fetch_error, get_res, res_list, virtual_network_entry,
    resource_key, KeyActionStep, KeyActionTracker, ResourceControllerKind,
};
use agent_ng::config_controller::cn2::resources::virtualmachine::VirtualMachineController;
use agent_ng::config_controller::cn2::resources::virtualmachineinterface::VirtualMachineInterfaceController;
use agent_ng::config_controller::config_controller::{
    controllers_to_start, is_config_complete, Config as ControllerConfig, ConfigControllerInterface,
    ControllerKind,
};

fn key(name: &str) -> Key {
    Key { kind: "VirtualMachine".to_string(), namespace: "default".to_string(), name: name.to_string() }
}

fn ka(k: &Key, action: i32) -> KeyAction {
    KeyAction { key: Some(k.clone()), action }
}

fn reference(kind: &str, name: &str) -> ResourceReference {
    ResourceReference {
        object_reference: Some(ObjectReference {
            kind: Some(kind.to_string()),
            namespace: Some("default".to_string()),
            name: Some(name.to_string()),
        }),
    }
}

#[test]
fn res_list_names_three_kinds_in_order() {
    assert_eq!(res_list(), vec!["VirtualNetwork", "VirtualMachineInterface", "VirtualMachine"]);
}

#[test]
fn get_res_picks_the_controller_by_name() {
    assert_eq!(get_res("VirtualNetwork".into()), ResourceControllerKind::VirtualNetwork);
    assert_eq!(get_res("VirtualMachine".into()), ResourceControllerKind::VirtualMachine);
    assert_eq!(get_res("VirtualMachineInterface".into()), ResourceControllerKind::VirtualMachineInterface);
    assert_eq!(get_res("Pod".into()), ResourceControllerKind::VirtualMachineInterface);
}

#[test]
fn action_numbers() {
    assert!(matches!(action_from_i32(0), Some(KeyActionKind::Add)));
    assert!(matches!(action_from_i32(1), Some(KeyActionKind::Del)));
    assert!(matches!(action_from_i32(2), Some(KeyActionKind::Retry)));
    assert!(action_from_i32(3).is_none());
    assert!(action_from_i32(-1).is_none());
    assert_eq!(action_to_i32(KeyActionKind::Retry), 2);
}

#[test]
fn resource_key_joins_with_slashes() {
    assert_eq!(resource_key(&key("vm1")), "VirtualMachine/default/vm1");
}

#[test]
fn tracker_processes_a_key_once_and_requeues_repeats() {
    let mut t = KeyActionTracker::new();
    let k = key("vm1");
    assert!(matches!(t.step(ka(&k, 0)), KeyActionStep::Process(p) if p == k));
    // Added again while in progress: remembered, not processed.
    assert!(matches!(t.step(ka(&k, 0)), KeyActionStep::Idle));
    assert!(matches!(t.step(ka(&k, 0)), KeyActionStep::Idle));
    // Done: the remembered request comes back as an add.
    match t.step(ka(&k, 1)) {
        KeyActionStep::Requeue(next) => {
            assert_eq!(next, ka(&k, 0));
        }
        other => panic!("unexpected {:?}", other),
    }
    assert!(matches!(t.step(ka(&k, 0)), KeyActionStep::Process(p) if p == k));
    // Done without repeats: nothing comes back.
    assert!(matches!(t.step(ka(&k, 1)), KeyActionStep::Idle));
    assert!(matches!(t.step(ka(&k, 1)), KeyActionStep::Idle));
}

#[test]
fn tracker_retry_processes_again_and_forgets_repeats() {
    let mut t = KeyActionTracker::new();
    let k = key("vm1");
    assert!(matches!(t.step(ka(&k, 0)), KeyActionStep::Process(_)));
    assert!(matches!(t.step(ka(&k, 0)), KeyActionStep::Idle));
    assert!(matches!(t.step(ka(&k, 2)), KeyActionStep::Process(p) if p == k));
    // The repeat was dropped by the retry: deleting brings nothing back.
    assert!(matches!(t.step(ka(&k, 1)), KeyActionStep::Idle));
}

#[test]
fn tracker_keeps_keys_apart_and_stops_on_unknown_actions() {
    let mut t = KeyActionTracker::new();
    assert!(matches!(t.step(ka(&key("a"), 0)), KeyActionStep::Process(_)));
    assert!(matches!(t.step(ka(&key("b"), 0)), KeyActionStep::Process(_)));
    assert!(matches!(t.step(KeyAction { key: None, action: 7 }), KeyActionStep::Stop));
    assert!(KeyActionTracker::is_key_action_ok(&KeyAction { key: None, action: 7 }));
    assert!(!KeyActionTracker::is_key_action_ok(&KeyAction { key: None, action: 0 }));
}

#[test]
fn outcomes_of_fetch_and_cache() {
    let k = key("vm1");
    assert_eq!(after_cache_add(k.clone(), Ok(())), ka(&k, 1));
    assert_eq!(after_cache_add(k.clone(), Err(AddError)), ka(&k, 2));
    assert_eq!(after_fetch_error(k.clone(), true), ka(&k, 1));
    assert_eq!(after_fetch_error(k.clone(), false), ka(&k, 2));
}

#[test]
fn machine_goes_to_the_cache_without_references() {
    let _c = VirtualMachineController::new();
    let bare = VirtualMachine { metadata: None };
    assert!(!VirtualMachineController::is_complete(&bare));
    let vm = VirtualMachine {
        metadata: Some(ObjectMeta {
            name: Some("vm1".into()),
            namespace: Some("default".into()),
            labels: vec![("tier".into(), "web".into())],
        }),
    };
    assert!(VirtualMachineController::is_complete(&vm));
    match VirtualMachineController::cache_entry(vm.clone(), key("vm1")) {
        ResourceKeyReferences::VirtualMachine(r, k, refs) => {
            assert_eq!(r, vm);
            assert_eq!(k, key("vm1"));
            assert!(refs.is_empty());
        }
        other => panic!("unexpected {:?}", other),
    }
}

#[test]
fn network_goes_to_the_cache_without_references() {
    let vn = agent_ng::api::VirtualNetwork { metadata: None };
    match virtual_network_entry(vn.clone(), key("vn1")) {
        ResourceKeyReferences::VirtualNetwork(r, k, refs) => {
            assert_eq!(r, vn);
            assert_eq!(k, key("vn1"));
            assert!(refs.is_empty());
        }
        other => panic!("unexpected {:?}", other),
    }
}

#[test]
fn interface_references_in_order() {
    let _c = VirtualMachineInterfaceController::new();
    let vmi = VirtualMachineInterface {
        metadata: Some(ObjectMeta { name: Some("i".into()), namespace: Some("default".into()), labels: vec![] }),
        spec: Some(VirtualMachineInterfaceSpec {
            virtual_network_reference: Some(reference("VirtualNetwork", "vn")),
            virtual_machine_references: vec![reference("VirtualMachine", "vm1"), reference("VirtualMachine", "vm2")],
            virtual_machine_interface_references: vec![reference("VirtualMachineInterface", "peer")],
        }),
    };
    assert!(VirtualMachineInterfaceController::is_complete(&vmi));
    let refs = VirtualMachineInterfaceController::references(&vmi);
    assert_eq!(
        refs,
        vec![
            reference("VirtualNetwork", "vn"),
            reference("VirtualMachine", "vm1"),
            reference("VirtualMachine", "vm2"),
            reference("VirtualMachineInterface", "peer"),
        ]
    );
    let k = Key { kind: "VirtualMachineInterface".into(), namespace: "default".into(), name: "i".into() };
    match VirtualMachineInterfaceController::cache_entry(vmi.clone(), k.clone()) {
        ResourceKeyReferences::VirtualMachineInterface(r, kk, rr) => {
            assert_eq!(r, vmi);
            assert_eq!(kk, k);
            assert_eq!(rr, refs);
        }
        other => panic!("unexpected {:?}", other),
    }
    let incomplete = VirtualMachineInterface { metadata: None, spec: None };
    assert!(!VirtualMachineInterfaceController::is_complete(&incomplete));
    let no_metadata = VirtualMachineInterface { metadata: None, spec: vmi.spec.clone() };
    assert!(!VirtualMachineInterfaceController::is_complete(&no_metadata));
    let _ = ResourceVariant::VirtualMachineInterface(incomplete);
}

#[test]
fn controllers_start_as_configured() {
    let cfg = |cn2: bool, cli: bool| ControllerConfig {
        cn2: Some(Cn2Config { enabled: Some(cn2), server: Some("http://[::1]:20443".into()) }),
        cli: Some(CliConfig { enabled: Some(cli), socket_path: None }),
    };
    assert_eq!(controllers_to_start(&cfg(true, true)), vec![ControllerKind::CN2, ControllerKind::CLI]);
    assert_eq!(controllers_to_start(&cfg(false, true)), vec![ControllerKind::CLI]);
    assert_eq!(controllers_to_start(&cfg(true, false)), vec![ControllerKind::CN2]);
    assert!(controllers_to_start(&cfg(false, false)).is_empty());
    assert!(is_config_complete(&cfg(false, false)));
    assert!(!is_config_complete(&ControllerConfig { cn2: None, cli: None }));
}

#[test]
fn cn2_controller_keeps_its_settings() {
    let c = CN2ConfigController::new("agent".into(), Cn2Config { enabled: Some(true), server: Some("srv".into()) });
    assert_eq!(c.server(), Some("srv".to_string()));
    assert_eq!(c.agent_name(), "agent");
    assert_eq!(c.name(), "CN2ConfigController");
}

#[test]
fn node_from_arguments() {
    assert_eq!(get_node(&vec!["prog".into(), "node7".into()]), "node7");
    assert_eq!(get_node(&vec![]), "5b3s30");
}

#[test]
fn settings_fallback_and_path() {
    let c = Config::fallback();
    assert_eq!(c.name, Some("bla".to_string()));
    assert!(c.config_controller.is_none());
    assert_eq!(config_file_path(None), "config.yaml");
    assert_eq!(config_file_path(Some("x.yaml".into())), "x.yaml");
}
