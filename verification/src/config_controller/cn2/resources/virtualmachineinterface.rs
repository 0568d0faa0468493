use vstd::prelude::*;
use crate::api::{Key, ResourceReference, ResourceVariant, VirtualMachineInterface, duplicate_references};
use crate::cache_controller::cache::ResourceKeyReferences;

verus! {

/// Fetches virtual machine interfaces and hands them to the cache.
#[derive(Copy, Clone)]
pub struct VirtualMachineInterfaceController {}

/// An interface has metadata, and names the virtual network that it belongs to.
pub open spec fn interface_complete(res: VirtualMachineInterface) -> bool {
    res.metadata is Some && res.spec is Some && res.spec->0.virtual_network_reference is Some
}

/// What an interface refers to: its virtual network, then its virtual
/// machines, then other interfaces.
pub open spec fn interface_references(res: VirtualMachineInterface) -> Seq<ResourceReference> {
    let spec = res.spec->0;
    seq![spec.virtual_network_reference->0] + spec.virtual_machine_references@
        + spec.virtual_machine_interface_references@
}

impl VirtualMachineInterfaceController {
    pub fn new() -> Self {
        Self {  }
    }

    pub fn is_complete(res: &VirtualMachineInterface) -> (b: bool)
        ensures
            b == interface_complete(*res),
    {
        match &res.spec {
            Some(spec) => res.metadata.is_some() && spec.virtual_network_reference.is_some(),
            None => false,
        }
    }

    /// The references of a fetched interface, in the order in which the cache records them.
    pub fn references(res: &VirtualMachineInterface) -> (r: Vec<ResourceReference>)
        requires
            interface_complete(*res),
        ensures
            r@ == interface_references(*res),
            r@.len() == 1 + res.spec->0.virtual_machine_references@.len()
                + res.spec->0.virtual_machine_interface_references@.len(),
            r@[0] == res.spec->0.virtual_network_reference->0,
            r@.subrange(1, (1 + res.spec->0.virtual_machine_references@.len()) as int)
                == res.spec->0.virtual_machine_references@,
            r@.subrange(
                (1 + res.spec->0.virtual_machine_references@.len()) as int,
                r@.len() as int,
            ) == res.spec->0.virtual_machine_interface_references@,
    {
        let spec = res.spec.as_ref().unwrap();
        let mut ref_list: Vec<ResourceReference> = Vec::new();
        ref_list.push(spec.virtual_network_reference.as_ref().unwrap().duplicate());
        let mut virtual_machine_refs = duplicate_references(&spec.virtual_machine_references);
        ref_list.append(&mut virtual_machine_refs);
        let mut virtual_machine_interface_refs = duplicate_references(
            &spec.virtual_machine_interface_references,
        );
        ref_list.append(&mut virtual_machine_interface_refs);
        assert(ref_list@ =~= interface_references(*res));
        proof {
            lemma_interface_references_layout(*res);
            let nm = spec.virtual_machine_references@.len();
            assert(ref_list@.subrange(1, (1 + nm) as int) =~= spec.virtual_machine_references@);
        }
        ref_list
    }

    /// What goes to the cache for a fetched interface: the interface under its
    /// key, with its references.
    pub fn cache_entry(res: VirtualMachineInterface, key: Key) -> (r: ResourceKeyReferences)
        requires
            interface_complete(res),
        ensures
            r is VirtualMachineInterface,
            r.variant() == ResourceVariant::VirtualMachineInterface(res),
            r.key() == key,
            r.references() == interface_references(res),
    {
        let references = Self::references(&res);
        ResourceKeyReferences::VirtualMachineInterface(res, key, references)
    }
}

} // verus!

verus! {

/// The references of an interface are its virtual network, then all of its
/// virtual machine references, then all of its peer interface references, each
/// list whole and in order, and nothing else.
pub proof fn lemma_interface_references_layout(res: VirtualMachineInterface)
    requires
        interface_complete(res),
    ensures
        ({
            let spec = res.spec->0;
            let refs = interface_references(res);
            let nm = spec.virtual_machine_references@.len();
            let ni = spec.virtual_machine_interface_references@.len();
            &&& refs.len() == 1 + nm + ni
            &&& refs[0] == spec.virtual_network_reference->0
            &&& forall|i: int| 0 <= i < nm ==> refs[1 + i] == spec.virtual_machine_references@[i]
            &&& forall|i: int| 0 <= i < ni ==> refs[1 + nm + i] == spec.virtual_machine_interface_references@[i]
            &&& refs.subrange((1 + nm) as int, refs.len() as int) == spec.virtual_machine_interface_references@
        }),
{
    let spec = res.spec->0;
    let refs = interface_references(res);
    let nm = spec.virtual_machine_references@.len();
    assert(refs.subrange((1 + nm) as int, refs.len() as int) =~= spec.virtual_machine_interface_references@);
}

} // verus!
