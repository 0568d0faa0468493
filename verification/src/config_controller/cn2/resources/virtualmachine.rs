use vstd::prelude::*;
use crate::api::{Key, ResourceReference, ResourceVariant, VirtualMachine};
use crate::cache_controller::cache::ResourceKeyReferences;

verus! {

/// Fetches virtual machines and hands them to the cache.
#[derive(Copy, Clone)]
pub struct VirtualMachineController {}

impl VirtualMachineController {
    pub fn new() -> Self {
        Self {  }
    }

    /// A fetched virtual machine has metadata.
    pub fn is_complete(res: &VirtualMachine) -> (b: bool)
        ensures
            b == (res.metadata is Some),
    {
        res.metadata.is_some()
    }

    /// What goes to the cache for a fetched virtual machine: the machine under
    /// its key, with no references.
    pub fn cache_entry(res: VirtualMachine, key: Key) -> (r: ResourceKeyReferences)
        requires
            res.metadata is Some,
        ensures
            r is VirtualMachine,
            r.variant() == ResourceVariant::VirtualMachine(res),
            r.key() == key,
            r.references() == Seq::<ResourceReference>::empty(),
    {
        let references: Vec<ResourceReference> = Vec::new();
        ResourceKeyReferences::VirtualMachine(res, key, references)
    }
}

} // verus!
