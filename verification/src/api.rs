//! Messages exchanged between the controllers and the cache, and the
//! resources that the cache keeps.
use vstd::prelude::*;

verus! {

/// Identifies a resource by its kind, namespace and name.
#[derive(Clone, Debug, PartialEq, Eq)]
pub struct Key {
    pub kind: String,
    pub namespace: String,
    pub name: String,
}

impl View for Key {
    type V = (Seq<char>, Seq<char>, Seq<char>);

    open spec fn view(&self) -> (Seq<char>, Seq<char>, Seq<char>) {
        (self.kind@, self.namespace@, self.name@)
    }
}

impl Key {
    pub fn duplicate(&self) -> (r: Key)
        ensures
            r == *self,
    {
        Key { kind: self.kind.clone(), namespace: self.namespace.clone(), name: self.name.clone() }
    }
}

/// A request to find the resources of the kind of `to` that can be reached
/// from `from` through resources whose kinds are listed in `filter`.
#[derive(Clone, Debug, PartialEq, Eq)]
pub struct FromToFilter {
    pub from: Option<Key>,
    pub to: Option<Key>,
    pub filter: Vec<String>,
}

/// A reference from one resource to another.
#[derive(Clone, Debug, PartialEq, Eq)]
pub struct ObjectReference {
    pub kind: Option<String>,
    pub namespace: Option<String>,
    pub name: Option<String>,
}

#[derive(Clone, Debug, PartialEq, Eq)]
pub struct ResourceReference {
    pub object_reference: Option<ObjectReference>,
}

#[derive(Clone, Debug, PartialEq, Eq)]
pub struct ObjectMeta {
    pub name: Option<String>,
    pub namespace: Option<String>,
    /// The labels, as pairs of key and value.
    pub labels: Vec<(String, String)>,
}

#[derive(Clone, Debug, PartialEq, Eq)]
pub struct VirtualNetwork {
    pub metadata: Option<ObjectMeta>,
}

#[derive(Clone, Debug, PartialEq, Eq)]
pub struct VirtualMachine {
    pub metadata: Option<ObjectMeta>,
}

#[derive(Clone, Debug, PartialEq, Eq)]
pub struct VirtualMachineInterfaceSpec {
    pub virtual_network_reference: Option<ResourceReference>,
    pub virtual_machine_references: Vec<ResourceReference>,
    pub virtual_machine_interface_references: Vec<ResourceReference>,
}

#[derive(Clone, Debug, PartialEq, Eq)]
pub struct VirtualMachineInterface {
    pub metadata: Option<ObjectMeta>,
    pub spec: Option<VirtualMachineInterfaceSpec>,
}

/// One resource of one of the kinds that the cache keeps.
#[derive(Clone, Debug, PartialEq, Eq)]
pub enum ResourceVariant {
    VirtualNetwork(VirtualNetwork),
    VirtualMachine(VirtualMachine),
    VirtualMachineInterface(VirtualMachineInterface),
}

#[derive(Clone, Debug, PartialEq, Eq)]
pub struct Resource {
    pub resource: Option<ResourceVariant>,
}

#[derive(Clone, Debug, PartialEq, Eq)]
pub struct ResourceList {
    pub resources: Vec<Resource>,
}

/// The mathematical value of a resource's metadata.
pub struct ObjectMetaView {
    pub name: Option<String>,
    pub namespace: Option<String>,
    pub labels: Seq<(String, String)>,
}

pub struct VirtualNetworkView {
    pub metadata: Option<ObjectMetaView>,
}

pub struct VirtualMachineView {
    pub metadata: Option<ObjectMetaView>,
}

/// The mathematical value of a virtual machine interface's spec.
pub struct VirtualMachineInterfaceSpecView {
    pub virtual_network_reference: Option<ResourceReference>,
    pub virtual_machine_references: Seq<ResourceReference>,
    pub virtual_machine_interface_references: Seq<ResourceReference>,
}

pub struct VirtualMachineInterfaceView {
    pub metadata: Option<ObjectMetaView>,
    pub spec: Option<VirtualMachineInterfaceSpecView>,
}

pub enum ResourceVariantView {
    VirtualNetwork(VirtualNetworkView),
    VirtualMachine(VirtualMachineView),
    VirtualMachineInterface(VirtualMachineInterfaceView),
}

impl View for ObjectMeta {
    type V = ObjectMetaView;

    open spec fn view(&self) -> ObjectMetaView {
        ObjectMetaView { name: self.name, namespace: self.namespace, labels: self.labels@ }
    }
}

pub open spec fn meta_view(m: Option<ObjectMeta>) -> Option<ObjectMetaView> {
    match m {
        Some(x) => Some(x@),
        None => None,
    }
}

impl View for VirtualNetwork {
    type V = VirtualNetworkView;

    open spec fn view(&self) -> VirtualNetworkView {
        VirtualNetworkView { metadata: meta_view(self.metadata) }
    }
}

impl View for VirtualMachine {
    type V = VirtualMachineView;

    open spec fn view(&self) -> VirtualMachineView {
        VirtualMachineView { metadata: meta_view(self.metadata) }
    }
}

impl View for VirtualMachineInterfaceSpec {
    type V = VirtualMachineInterfaceSpecView;

    open spec fn view(&self) -> VirtualMachineInterfaceSpecView {
        VirtualMachineInterfaceSpecView {
            virtual_network_reference: self.virtual_network_reference,
            virtual_machine_references: self.virtual_machine_references@,
            virtual_machine_interface_references: self.virtual_machine_interface_references@,
        }
    }
}

impl View for VirtualMachineInterface {
    type V = VirtualMachineInterfaceView;

    open spec fn view(&self) -> VirtualMachineInterfaceView {
        VirtualMachineInterfaceView {
            metadata: meta_view(self.metadata),
            spec: match self.spec {
                Some(s) => Some(s@),
                None => None,
            },
        }
    }
}

impl View for ResourceVariant {
    type V = ResourceVariantView;

    open spec fn view(&self) -> ResourceVariantView {
        match self {
            ResourceVariant::VirtualNetwork(x) => ResourceVariantView::VirtualNetwork(x@),
            ResourceVariant::VirtualMachine(x) => ResourceVariantView::VirtualMachine(x@),
            ResourceVariant::VirtualMachineInterface(x) => ResourceVariantView::VirtualMachineInterface(x@),
        }
    }
}

impl View for Resource {
    type V = Option<ResourceVariantView>;

    open spec fn view(&self) -> Option<ResourceVariantView> {
        match self.resource {
            Some(r) => Some(r@),
            None => None,
        }
    }
}

impl View for ResourceList {
    type V = Seq<Option<ResourceVariantView>>;

    open spec fn view(&self) -> Seq<Option<ResourceVariantView>> {
        self.resources@.map_values(|r: Resource| r@)
    }
}

/// What a resource controller is asked to do with a key.
#[derive(Clone, Debug, PartialEq, Eq)]
pub struct KeyAction {
    pub key: Option<Key>,
    pub action: i32,
}

/// The actions that a key action can ask for.
#[derive(Clone, Debug, PartialEq, Eq)]
pub enum KeyActionKind {
    Add,
    Del,
    Retry,
}


pub fn duplicate_string_option(s: &Option<String>) -> (r: Option<String>)
    ensures
        r == *s,
{
    match s {
        Some(x) => Some(x.clone()),
        None => None,
    }
}

impl ObjectReference {
    pub fn duplicate(&self) -> (r: ObjectReference)
        ensures
            r == *self,
    {
        ObjectReference {
            kind: duplicate_string_option(&self.kind),
            namespace: duplicate_string_option(&self.namespace),
            name: duplicate_string_option(&self.name),
        }
    }
}

impl ResourceReference {
    pub fn duplicate(&self) -> (r: ResourceReference)
        ensures
            r == *self,
    {
        match &self.object_reference {
            Some(o) => ResourceReference { object_reference: Some(o.duplicate()) },
            None => ResourceReference { object_reference: None },
        }
    }
}

pub fn duplicate_references(refs: &Vec<ResourceReference>) -> (r: Vec<ResourceReference>)
    ensures
        r@ == refs@,
{
    let mut r: Vec<ResourceReference> = Vec::new();
    for i in 0..refs.len()
        invariant
            r@ == refs@.take(i as int),
    {
        r.push(refs[i].duplicate());
        assert(r@ =~= refs@.take(i + 1));
    }
    assert(refs@.take(refs.len() as int) =~= refs@);
    r
}

pub fn duplicate_labels(labels: &Vec<(String, String)>) -> (r: Vec<(String, String)>)
    ensures
        r@ == labels@,
{
    let mut r: Vec<(String, String)> = Vec::new();
    for i in 0..labels.len()
        invariant
            r@ == labels@.take(i as int),
    {
        let (k, v) = &labels[i];
        r.push((k.clone(), v.clone()));
        assert(r@ =~= labels@.take(i + 1));
    }
    assert(labels@.take(labels.len() as int) =~= labels@);
    r
}

impl ObjectMeta {
    pub fn duplicate(&self) -> (r: ObjectMeta)
        ensures
            r@ == self@,
    {
        ObjectMeta {
            name: duplicate_string_option(&self.name),
            namespace: duplicate_string_option(&self.namespace),
            labels: duplicate_labels(&self.labels),
        }
    }
}

pub fn duplicate_meta_option(m: &Option<ObjectMeta>) -> (r: Option<ObjectMeta>)
    ensures
        meta_view(r) == meta_view(*m),
{
    match m {
        Some(x) => Some(x.duplicate()),
        None => None,
    }
}

impl VirtualNetwork {
    pub fn duplicate(&self) -> (r: VirtualNetwork)
        ensures
            r@ == self@,
    {
        VirtualNetwork { metadata: duplicate_meta_option(&self.metadata) }
    }
}

impl VirtualMachine {
    pub fn duplicate(&self) -> (r: VirtualMachine)
        ensures
            r@ == self@,
    {
        VirtualMachine { metadata: duplicate_meta_option(&self.metadata) }
    }
}

impl VirtualMachineInterfaceSpec {
    pub fn duplicate(&self) -> (r: VirtualMachineInterfaceSpec)
        ensures
            r@ == self@,
    {
        let vn = match &self.virtual_network_reference {
            Some(x) => Some(x.duplicate()),
            None => None,
        };
        VirtualMachineInterfaceSpec {
            virtual_network_reference: vn,
            virtual_machine_references: duplicate_references(&self.virtual_machine_references),
            virtual_machine_interface_references: duplicate_references(
                &self.virtual_machine_interface_references,
            ),
        }
    }
}

impl VirtualMachineInterface {
    pub fn duplicate(&self) -> (r: VirtualMachineInterface)
        ensures
            r@ == self@,
    {
        let spec = match &self.spec {
            Some(x) => Some(x.duplicate()),
            None => None,
        };
        VirtualMachineInterface { metadata: duplicate_meta_option(&self.metadata), spec }
    }
}

impl ResourceVariant {
    pub fn duplicate(&self) -> (r: ResourceVariant)
        ensures
            r@ == self@,
    {
        match self {
            ResourceVariant::VirtualNetwork(x) => ResourceVariant::VirtualNetwork(x.duplicate()),
            ResourceVariant::VirtualMachine(x) => ResourceVariant::VirtualMachine(x.duplicate()),
            ResourceVariant::VirtualMachineInterface(x) => ResourceVariant::VirtualMachineInterface(
                x.duplicate(),
            ),
        }
    }
}

} // verus!
