use vstd::prelude::*;
use crate::api::{
    FromToFilter, Key, Resource, ResourceList, ResourceReference, ResourceVariant,
    ResourceVariantView, VirtualMachine, VirtualMachineInterface, VirtualNetwork,
};
use crate::cache_controller::cache_key::{
    CacheKey, KeyView, contains_string, duplicate_strings, keys_view, strings_view,
};
use crate::cache_controller::graph::{
    Graph, add_edge_spec, has_edge, traverse_spec, lemma_add_edge_edges, lemma_add_edge_present,
};
use crate::cache_controller::lru_store::{
    ResourceLru, lru_capacity, lru_contains, lru_entries, lru_get, lru_push, lru_unbounded,
};

verus! {

pub open spec fn virtual_network_kind() -> Seq<char> {
    "VirtualNetwork"@
}

pub open spec fn virtual_machine_kind() -> Seq<char> {
    "VirtualMachine"@
}

pub open spec fn virtual_machine_interface_kind() -> Seq<char> {
    "VirtualMachineInterface"@
}

/// The kinds of resources that the cache keeps.
pub open spec fn resource_kinds() -> Seq<Seq<char>> {
    seq![virtual_network_kind(), virtual_machine_kind(), virtual_machine_interface_kind()]
}

/// Whether `kind` reads `name`.
pub fn kind_is(kind: &String, name: &str) -> (b: bool)
    ensures
        b == (kind@ == name@),
{
    *kind == name.to_owned()
}

pub fn to_cache_key(key: Key) -> (r: CacheKey)
    ensures
        r@ == key@,
{
    CacheKey { kind: key.kind, namespace: key.namespace, name: key.name }
}

pub fn to_v1_key(cache_key: CacheKey) -> (r: Key)
    ensures
        r@ == cache_key@,
{
    Key { kind: cache_key.kind, namespace: cache_key.namespace, name: cache_key.name }
}

/// A reference names the kind, namespace and name of what it refers to.
pub open spec fn reference_complete(reference: ResourceReference) -> bool {
    &&& reference.object_reference is Some
    &&& reference.object_reference->0.kind is Some
    &&& reference.object_reference->0.namespace is Some
    &&& reference.object_reference->0.name is Some
}

/// The key that a complete reference names.
pub open spec fn reference_key(reference: ResourceReference) -> KeyView {
    let o = reference.object_reference->0;
    (o.kind->0@, o.namespace->0@, o.name->0@)
}

pub open spec fn references_complete(references: Seq<ResourceReference>) -> bool {
    forall|i: int| 0 <= i < references.len() ==> reference_complete(#[trigger] references[i])
}

pub open spec fn reference_keys(references: Seq<ResourceReference>) -> Seq<KeyView> {
    references.map_values(|r: ResourceReference| reference_key(r))
}

pub fn is_complete_reference(reference: &ResourceReference) -> (b: bool)
    ensures
        b == reference_complete(*reference),
{
    match &reference.object_reference {
        Some(o) => o.kind.is_some() && o.namespace.is_some() && o.name.is_some(),
        None => false,
    }
}

pub fn are_complete_references(references: &Vec<ResourceReference>) -> (b: bool)
    ensures
        b == references_complete(references@),
{
    let mut i: usize = 0;
    while i < references.len()
        invariant
            i <= references@.len(),
            forall|j: int| 0 <= j < i ==> reference_complete(#[trigger] references@[j]),
        decreases references@.len() - i,
    {
        if !is_complete_reference(&references[i]) {
            return false;
        }
        i = i + 1;
    }
    true
}

pub fn reference_to_cache_key(reference: ResourceReference) -> (r: CacheKey)
    requires
        reference_complete(reference),
    ensures
        r@ == reference_key(reference),
{
    let o = reference.object_reference.unwrap();
    CacheKey { kind: o.kind.unwrap(), namespace: o.namespace.unwrap(), name: o.name.unwrap() }
}

fn reference_to_cache_key_ref(reference: &ResourceReference) -> (r: CacheKey)
    requires
        reference_complete(*reference),
    ensures
        r@ == reference_key(*reference),
{
    let o = reference.object_reference.as_ref().unwrap();
    CacheKey {
        kind: o.kind.as_ref().unwrap().clone(),
        namespace: o.namespace.as_ref().unwrap().clone(),
        name: o.name.as_ref().unwrap().clone(),
    }
}

/// Whether a reference names one of the kinds that the cache keeps.
pub fn in_resource_list(reference: ResourceReference) -> (b: bool)
    requires
        reference.object_reference is Some,
        reference.object_reference->0.kind is Some,
    ensures
        b == resource_kinds().contains(reference.object_reference->0.kind->0@),
{
    let mut reference_list: Vec<String> = Vec::new();
    reference_list.push("VirtualNetwork".to_owned());
    reference_list.push("VirtualMachine".to_owned());
    reference_list.push("VirtualMachineInterface".to_owned());
    assert(strings_view(reference_list@) =~= resource_kinds());
    let o = reference.object_reference.unwrap();
    let ref_kind = o.kind.unwrap();
    contains_string(&reference_list, &ref_kind)
}

/// A node that a reference named was missing from the graph.
#[derive(Debug)]
pub struct NodeNotExist;

/// The cache could not take a resource.
#[derive(Debug)]
pub struct AddError;

/// A resource, the key to keep it under, and the resources that it refers to.
#[derive(Debug)]
pub enum ResourceKeyReferences {
    VirtualNetwork(VirtualNetwork, Key, Vec<ResourceReference>),
    VirtualMachine(VirtualMachine, Key, Vec<ResourceReference>),
    VirtualMachineInterface(VirtualMachineInterface, Key, Vec<ResourceReference>),
}

impl ResourceKeyReferences {
    pub open spec fn key(&self) -> Key {
        match self {
            ResourceKeyReferences::VirtualNetwork(_, k, _) => *k,
            ResourceKeyReferences::VirtualMachine(_, k, _) => *k,
            ResourceKeyReferences::VirtualMachineInterface(_, k, _) => *k,
        }
    }

    pub open spec fn references(&self) -> Seq<ResourceReference> {
        match self {
            ResourceKeyReferences::VirtualNetwork(_, _, r) => r@,
            ResourceKeyReferences::VirtualMachine(_, _, r) => r@,
            ResourceKeyReferences::VirtualMachineInterface(_, _, r) => r@,
        }
    }

    pub open spec fn variant(&self) -> ResourceVariant {
        match self {
            ResourceKeyReferences::VirtualNetwork(x, _, _) => ResourceVariant::VirtualNetwork(*x),
            ResourceKeyReferences::VirtualMachine(x, _, _) => ResourceVariant::VirtualMachine(*x),
            ResourceKeyReferences::VirtualMachineInterface(x, _, _) => ResourceVariant::VirtualMachineInterface(*x),
        }
    }
}

/// What the sender of a resource learns of the cache's answer.
pub fn add_result(r: Result<(), NodeNotExist>) -> (a: Result<(), AddError>)
    ensures
        a is Ok <==> r is Ok,
{
    match r {
        Ok(()) => Ok(()),
        Err(_) => Err(AddError),
    }
}

/// A request to the cache.
#[derive(Debug)]
pub enum Action {
    Add(ResourceKeyReferences),
    Get(Key),
    List(FromToFilter),
}

/// The edges after adding, for each target in order, the edge from it to `k`.
pub open spec fn add_in_edges(edges: Map<KeyView, Seq<KeyView>>, sources: Seq<KeyView>, k: KeyView) -> Map<
    KeyView,
    Seq<KeyView>,
>
    decreases sources.len(),
{
    if sources.len() == 0 {
        edges
    } else {
        add_edge_spec(add_in_edges(edges, sources.drop_last(), k), sources.last(), k)
    }
}

/// The edges after adding, for each target in order, the edge from `k` to it.
pub open spec fn add_out_edges(edges: Map<KeyView, Seq<KeyView>>, k: KeyView, targets: Seq<KeyView>) -> Map<
    KeyView,
    Seq<KeyView>,
>
    decreases targets.len(),
{
    if targets.len() == 0 {
        edges
    } else {
        add_edge_spec(add_out_edges(edges, k, targets.drop_last()), k, targets.last())
    }
}

/// The edges after recording a resource under `k` with references to `targets`:
/// first an edge from each target to `k`, then one from `k` to each target.
pub open spec fn update_edges_spec(edges: Map<KeyView, Seq<KeyView>>, k: KeyView, targets: Seq<KeyView>) -> Map<
    KeyView,
    Seq<KeyView>,
> {
    add_out_edges(add_in_edges(edges, targets, k), k, targets)
}

/// Records the resource under `key` as a node of the graph, linked both ways
/// to each resource that it refers to.
pub fn update_graph(key: &Key, references: &Vec<ResourceReference>, g: &mut Graph) -> (r: Result<
    (),
    NodeNotExist,
>)
    requires
        old(g).wf(),
        references_complete(references@),
    ensures
        final(g).wf(),
        final(g).node_map() == old(g).node_map().insert(key@, key@),
        final(g).edge_map() == update_edges_spec(old(g).edge_map(), key@, reference_keys(references@)),
        forall|x: KeyView, y: KeyView|
            #[trigger] has_edge(final(g).edge_map(), x, y) <==> has_edge(old(g).edge_map(), x, y) || (x == key@
                && reference_keys(references@).contains(y)) || (y == key@ && reference_keys(references@).contains(x)),
        r is Ok,
{
    let ghost targets = reference_keys(references@);
    let _result = g.add_node(to_cache_key(key.duplicate()), to_cache_key(key.duplicate()));
    let ghost nodes_after = g.node_map();
    let ghost edges0 = g.edge_map();
    if references.len() > 0 {
        for i in 0..references.len()
            invariant
                g.wf(),
                g.node_map() == nodes_after,
                references_complete(references@),
                targets == reference_keys(references@),
                g.edge_map() == add_in_edges(edges0, targets.take(i as int), key@),
        {
            let source = reference_to_cache_key_ref(&references[i]);
            proof {
                assert(targets.take(i + 1).drop_last() =~= targets.take(i as int));
                assert(targets.take(i + 1).last() == source@);
            }
            g.add_edge(source, to_cache_key(key.duplicate()));
        }
        let ghost edges1 = g.edge_map();
        proof {
            assert(targets.take(references@.len() as int) =~= targets);
        }
        for i in 0..references.len()
            invariant
                g.wf(),
                g.node_map() == nodes_after,
                references_complete(references@),
                targets == reference_keys(references@),
                g.edge_map() == add_out_edges(edges1, key@, targets.take(i as int)),
        {
            let target = reference_to_cache_key_ref(&references[i]);
            proof {
                assert(targets.take(i + 1).drop_last() =~= targets.take(i as int));
                assert(targets.take(i + 1).last() == target@);
            }
            g.add_edge(to_cache_key(key.duplicate()), target);
        }
        proof {
            assert(targets.take(references@.len() as int) =~= targets);
        }
    } else {
        proof {
            assert(targets =~= Seq::<KeyView>::empty());
        }
    }
    proof {
        lemma_update_edges_exact(old(g).edge_map(), key@, targets);
    }
    Ok(())
}

/// The entries of an LRU cache after a push of `v` under `k`: exactly the
/// insertion where the key is present or there is room below `usize::MAX`;
/// else the insertion after some present entry was evicted.
pub open spec fn pushed(
    before: Map<KeyView, ResourceVariant>,
    after: Map<KeyView, ResourceVariant>,
    k: KeyView,
    v: ResourceVariant,
) -> bool {
    if before.contains_key(k) || before.len() < usize::MAX {
        after == before.insert(k, v)
    } else {
        // The cache is full: it holds `usize::MAX` entries.
        exists|e: KeyView| before.contains_key(e) && after == before.remove(e).insert(k, v)
    }
}

/// What a lookup in the cache gives.
#[derive(Debug)]
pub enum GetOutcome {
    /// The resource stored under the key.
    Found(Resource),
    /// The key names a kind that the cache does not keep.
    Unknown,
}

/// The answer of the cache to one request.
#[derive(Debug)]
pub enum CacheReply {
    Added(Result<(), NodeNotExist>),
    Got(GetOutcome),
    Listed(ResourceList),
}

/// The state of the cache: one least-recently-used cache for each kind of
/// resource, and the graph of the references between the resources.
pub struct CacheStore {
    virtual_network_cache: ResourceLru,
    virtual_machine_cache: ResourceLru,
    virtual_machine_interface_cache: ResourceLru,
    graph: Graph,
}

impl CacheStore {
    pub closed spec fn wf(&self) -> bool {
        &&& self.graph.wf()
        &&& lru_capacity(self.virtual_network_cache) == usize::MAX
        &&& lru_capacity(self.virtual_machine_cache) == usize::MAX
        &&& lru_capacity(self.virtual_machine_interface_cache) == usize::MAX
        &&& self.networks().dom().finite()
        &&& self.machines().dom().finite()
        &&& self.interfaces().dom().finite()
        &&& self.networks().len() <= usize::MAX
        &&& self.machines().len() <= usize::MAX
        &&& self.interfaces().len() <= usize::MAX
        &&& forall|k: KeyView| #[trigger] self.networks().contains_key(k) ==> self.networks()[k] is VirtualNetwork
        &&& forall|k: KeyView| #[trigger] self.machines().contains_key(k) ==> self.machines()[k] is VirtualMachine
        &&& forall|k: KeyView| #[trigger] self.interfaces().contains_key(k)
            ==> self.interfaces()[k] is VirtualMachineInterface
    }

    /// The virtual networks, by key.
    pub closed spec fn networks(&self) -> Map<KeyView, ResourceVariant> {
        lru_entries(self.virtual_network_cache)
    }

    /// The virtual machines, by key.
    pub closed spec fn machines(&self) -> Map<KeyView, ResourceVariant> {
        lru_entries(self.virtual_machine_cache)
    }

    /// The virtual machine interfaces, by key.
    pub closed spec fn interfaces(&self) -> Map<KeyView, ResourceVariant> {
        lru_entries(self.virtual_machine_interface_cache)
    }

    pub closed spec fn nodes(&self) -> Map<KeyView, KeyView> {
        self.graph.node_map()
    }

    pub closed spec fn edges(&self) -> Map<KeyView, Seq<KeyView>> {
        self.graph.edge_map()
    }

    /// The graph of references between the resources.
    pub fn graph(&self) -> (g: &Graph)
        requires
            self.wf(),
        ensures
            g.wf(),
            g.node_map() == self.nodes(),
            g.edge_map() == self.edges(),
    {
        &self.graph
    }

    /// The resources kept for `kind`, or `None` for a kind that is not kept.
    pub open spec fn cache_of_kind(&self, kind: Seq<char>) -> Option<Map<KeyView, ResourceVariant>> {
        if kind == virtual_network_kind() {
            Some(self.networks())
        } else if kind == virtual_machine_kind() {
            Some(self.machines())
        } else if kind == virtual_machine_interface_kind() {
            Some(self.interfaces())
        } else {
            None
        }
    }

    /// Nothing that a lookup can tell apart has changed.
    pub open spec fn same_contents(&self, other: CacheStore) -> bool {
        &&& self.networks() == other.networks()
        &&& self.machines() == other.machines()
        &&& self.interfaces() == other.interfaces()
        &&& self.nodes() == other.nodes()
        &&& self.edges() == other.edges()
    }

    /// What the cache holds after it took `resource`.
    pub open spec fn add_post(
        before: CacheStore,
        after: CacheStore,
        resource: ResourceKeyReferences,
        r: Result<(), NodeNotExist>,
    ) -> bool {
        let k = resource.key()@;
        let v = resource.variant();
        &&& r is Ok
        &&& after.nodes() == before.nodes().insert(k, k)
        &&& after.edges() == update_edges_spec(before.edges(), k, reference_keys(resource.references()))
        &&& resource is VirtualNetwork ==> {
            &&& pushed(before.networks(), after.networks(), k, v)
            &&& after.machines() == before.machines()
            &&& after.interfaces() == before.interfaces()
        }
        &&& resource is VirtualMachine ==> {
            &&& pushed(before.machines(), after.machines(), k, v)
            &&& after.networks() == before.networks()
            &&& after.interfaces() == before.interfaces()
        }
        &&& resource is VirtualMachineInterface ==> {
            &&& pushed(before.interfaces(), after.interfaces(), k, v)
            &&& after.networks() == before.networks()
            &&& after.machines() == before.machines()
        }
    }

    /// A lookup of `key` can be served: its kind is not kept, or something is
    /// stored under it.
    pub open spec fn get_ok(&self, key: Key) -> bool {
        match self.cache_of_kind(key.kind@) {
            None => true,
            Some(m) => m.contains_key(key@),
        }
    }

    /// What a lookup of `key` gives.
    pub open spec fn get_post(before: CacheStore, key: Key, r: GetOutcome) -> bool {
        match before.cache_of_kind(key.kind@) {
            None => r is Unknown,
            Some(m) => r matches GetOutcome::Found(res) && res@ == Some(m[key@]@),
        }
    }

    /// The resources kept for `keys`, in order, skipping keys of kinds that are
    /// not kept; `None` where a key of a kept kind has nothing stored under it.
    pub open spec fn list_spec(&self, keys: Seq<KeyView>) -> Option<Seq<Option<ResourceVariantView>>>
        decreases keys.len(),
    {
        if keys.len() == 0 {
            Some(seq![])
        } else {
            match self.list_spec(keys.drop_last()) {
                None => None,
                Some(prev) => {
                    let k = keys.last();
                    match self.cache_of_kind(k.0) {
                        None => Some(prev),
                        Some(m) => if m.contains_key(k) {
                            Some(prev.push(Some(m[k]@)))
                        } else {
                            None
                        },
                    }
                },
            }
        }
    }

    /// The keys of `keys` whose kind the cache keeps, in their order.
    pub open spec fn kept_keys(&self, keys: Seq<KeyView>) -> Seq<KeyView>
        decreases keys.len(),
    {
        if keys.len() == 0 {
            seq![]
        } else {
            let prev = self.kept_keys(keys.drop_last());
            if self.cache_of_kind(keys.last().0) is Some {
                prev.push(keys.last())
            } else {
                prev
            }
        }
    }

    /// `kept_keys` holds exactly the keys of kept kinds, and no key that is not among `keys`.
    pub proof fn lemma_kept_keys(&self, keys: Seq<KeyView>)
        ensures
            self.kept_keys(keys).len() <= keys.len(),
            forall|i: int|
                0 <= i < self.kept_keys(keys).len() ==> self.cache_of_kind((#[trigger] self.kept_keys(keys)[i]).0) is Some
                    && keys.contains(self.kept_keys(keys)[i]),
            forall|j: int|
                0 <= j < keys.len() && self.cache_of_kind((#[trigger] keys[j]).0) is Some ==> self.kept_keys(keys).contains(
                    keys[j],
                ),
        decreases keys.len(),
    {
        if keys.len() > 0 {
            let init = keys.drop_last();
            self.lemma_kept_keys(init);
            let prev = self.kept_keys(init);
            let kk = self.kept_keys(keys);
            assert forall|i: int| 0 <= i < kk.len() implies self.cache_of_kind((#[trigger] kk[i]).0) is Some
                && keys.contains(kk[i]) by {
                if i < prev.len() {
                    assert(kk[i] == prev[i]);
                    let w = choose|w: int| 0 <= w < init.len() && init[w] == prev[i];
                    assert(keys[w] == kk[i]);
                } else {
                    assert(kk[i] == keys[keys.len() - 1]);
                }
            }
            assert forall|j: int| 0 <= j < keys.len() && self.cache_of_kind((#[trigger] keys[j]).0) is Some implies kk.contains(
                keys[j],
            ) by {
                if j < keys.len() - 1 {
                    assert(init[j] == keys[j]);
                    let w = choose|w: int| 0 <= w < prev.len() && prev[w] == keys[j];
                    assert(kk[w] == keys[j]);
                } else {
                    assert(kk[kk.len() - 1] == keys[j]);
                }
            }
        }
    }

    /// Listing the keys that a search reached gives one entry for each key of a
    /// kept kind, in order: the resource stored under it.
    pub proof fn lemma_list_matches_kept_keys(&self, keys: Seq<KeyView>)
        requires
            self.list_spec(keys) is Some,
        ensures
            self.list_spec(keys)->0.len() == self.kept_keys(keys).len(),
            forall|i: int|
                0 <= i < self.kept_keys(keys).len() ==> {
                    let k = #[trigger] self.kept_keys(keys)[i];
                    &&& self.cache_of_kind(k.0) is Some
                    &&& self.cache_of_kind(k.0)->0.contains_key(k)
                    &&& self.list_spec(keys)->0[i] == Some(self.cache_of_kind(k.0)->0[k]@)
                },
        decreases keys.len(),
    {
        if keys.len() > 0 {
            let init = keys.drop_last();
            self.lemma_list_matches_kept_keys(init);
            let prev = self.list_spec(init)->0;
            let kk = self.kept_keys(keys);
            let pk = self.kept_keys(init);
            assert forall|i: int| 0 <= i < kk.len() implies {
                let k = #[trigger] kk[i];
                &&& self.cache_of_kind(k.0) is Some
                &&& self.cache_of_kind(k.0)->0.contains_key(k)
                &&& self.list_spec(keys)->0[i] == Some(self.cache_of_kind(k.0)->0[k]@)
            } by {
                if i < pk.len() {
                    assert(kk[i] == pk[i]);
                }
            }
        }
    }

    /// The keys that a search with `f` reaches in the graph.
    pub open spec fn search_keys(&self, f: FromToFilter) -> Seq<KeyView> {
        traverse_spec(self.nodes(), self.edges(), f.from->0@, f.to->0@, strings_view(f.filter@))
    }

    /// A search with `f` can be served: it names where it starts and what it
    /// seeks, and every key it reaches of a kept kind has something stored.
    pub open spec fn find_ok(&self, f: FromToFilter) -> bool {
        &&& f.from is Some
        &&& f.to is Some
        &&& self.list_spec(self.search_keys(f)) is Some
    }

    /// What a search with `f` gives.
    pub open spec fn find_post(before: CacheStore, f: FromToFilter, r: ResourceList) -> bool {
        r@ == before.list_spec(before.search_keys(f))->0
    }

    /// Once a prefix of the keys has a key with nothing stored, so has any longer prefix.
    pub proof fn lemma_list_none_extends(&self, keys: Seq<KeyView>, i: int, j: int)
        requires
            0 <= i <= j <= keys.len(),
            self.list_spec(keys.take(i)) is None,
        ensures
            self.list_spec(keys.take(j)) is None,
        decreases j - i,
    {
        if i < j {
            self.lemma_list_none_extends(keys, i, j - 1);
            assert(keys.take(j).drop_last() =~= keys.take(j - 1));
        }
    }

    pub fn new() -> (s: CacheStore)
        ensures
            s.wf(),
            s.networks() == Map::<KeyView, ResourceVariant>::empty(),
            s.machines() == Map::<KeyView, ResourceVariant>::empty(),
            s.interfaces() == Map::<KeyView, ResourceVariant>::empty(),
            s.nodes() == Map::<KeyView, KeyView>::empty(),
            s.edges() == Map::<KeyView, Seq<KeyView>>::empty(),
    {
        CacheStore {
            virtual_network_cache: lru_unbounded(),
            virtual_machine_cache: lru_unbounded(),
            virtual_machine_interface_cache: lru_unbounded(),
            graph: Graph::new(),
        }
    }

    /// Keeps the resource under its key and records its references in the graph.
    pub fn add(&mut self, resource: ResourceKeyReferences) -> (r: Result<(), NodeNotExist>)
        requires
            old(self).wf(),
            references_complete(resource.references()),
        ensures
            final(self).wf(),
            CacheStore::add_post(*old(self), *final(self), resource, r),
    {
        let ghost res0 = resource;
        match resource {
            ResourceKeyReferences::VirtualNetwork(resource, key, references) => {
                let k = to_cache_key(key.duplicate());
                let _ = lru_push(&mut self.virtual_network_cache, k, ResourceVariant::VirtualNetwork(resource));
                update_graph(&key, &references, &mut self.graph)
            },
            ResourceKeyReferences::VirtualMachine(resource, key, references) => {
                let k = to_cache_key(key.duplicate());
                let _ = lru_push(&mut self.virtual_machine_cache, k, ResourceVariant::VirtualMachine(resource));
                update_graph(&key, &references, &mut self.graph)
            },
            ResourceKeyReferences::VirtualMachineInterface(resource, key, references) => {
                let k = to_cache_key(key.duplicate());
                let _ = lru_push(
                    &mut self.virtual_machine_interface_cache,
                    k,
                    ResourceVariant::VirtualMachineInterface(resource),
                );
                update_graph(&key, &references, &mut self.graph)
            },
        }
    }

    /// Looks up the resource stored under `key`, in the cache for its kind.
    pub fn get(&mut self, key: Key) -> (r: GetOutcome)
        requires
            old(self).wf(),
            old(self).get_ok(key),
        ensures
            final(self).wf(),
            final(self).same_contents(*old(self)),
            CacheStore::get_post(*old(self), key, r),
    {
        let ghost kv = key@;
        if kind_is(&key.kind, "VirtualNetwork") {
            let k = to_cache_key(key);
            let v = lru_get(&mut self.virtual_network_cache, &k).unwrap();
            GetOutcome::Found(Resource { resource: Some(v.duplicate()) })
        } else if kind_is(&key.kind, "VirtualMachine") {
            let k = to_cache_key(key);
            let v = lru_get(&mut self.virtual_machine_cache, &k).unwrap();
            GetOutcome::Found(Resource { resource: Some(v.duplicate()) })
        } else if kind_is(&key.kind, "VirtualMachineInterface") {
            let k = to_cache_key(key);
            let v = lru_get(&mut self.virtual_machine_interface_cache, &k).unwrap();
            GetOutcome::Found(Resource { resource: Some(v.duplicate()) })
        } else {
            GetOutcome::Unknown
        }
    }

    /// Whether something is stored under `k`, for a key of a kept kind; `true`
    /// for a key of another kind.
    fn has_entry(&self, k: &CacheKey) -> (b: bool)
        requires
            self.wf(),
        ensures
            b == match self.cache_of_kind(k@.0) {
                None => true,
                Some(m) => m.contains_key(k@),
            },
    {
        if kind_is(&k.kind, "VirtualNetwork") {
            lru_contains(&self.virtual_network_cache, k)
        } else if kind_is(&k.kind, "VirtualMachine") {
            lru_contains(&self.virtual_machine_cache, k)
        } else if kind_is(&k.kind, "VirtualMachineInterface") {
            lru_contains(&self.virtual_machine_interface_cache, k)
        } else {
            true
        }
    }

    /// Whether a lookup of `key` can be served.
    pub fn can_get(&self, key: &Key) -> (b: bool)
        requires
            self.wf(),
        ensures
            b == self.get_ok(*key),
    {
        let k = to_cache_key(key.duplicate());
        self.has_entry(&k)
    }

    /// Whether a search with `f` can be served. The search is run on the graph,
    /// which it leaves as it was.
    pub fn can_find(&mut self, f: &FromToFilter) -> (b: bool)
        requires
            old(self).wf(),
        ensures
            *final(self) == *old(self),
            b == old(self).find_ok(*f),
    {
        match (&f.from, &f.to) {
            (Some(from), Some(to)) => {
                let from_key = to_cache_key(from.duplicate());
                let to_key = to_cache_key(to.duplicate());
                let filter = duplicate_strings(&f.filter);
                let result = self.graph.traverse(from_key, to_key, filter);
                let ghost keys = keys_view(result@);
                assert(keys == old(self).search_keys(*f));
                let mut i: usize = 0;
                while i < result.len()
                    invariant
                        self.wf(),
                        *self == *old(self),
                        keys == keys_view(result@),
                        keys == old(self).search_keys(*f),
                        i <= result@.len(),
                        old(self).list_spec(keys.take(i as int)) is Some,
                    decreases result@.len() - i,
                {
                    proof {
                        assert(keys.take(i + 1).drop_last() =~= keys.take(i as int));
                        assert(keys.take(i + 1).last() == result@[i as int]@);
                    }
                    if !self.has_entry(&result[i]) {
                        proof {
                            assert(old(self).list_spec(keys.take(i + 1)) is None);
                            old(self).lemma_list_none_extends(keys, i + 1, keys.len() as int);
                            assert(keys.take(keys.len() as int) =~= keys);
                        }
                        return false;
                    }
                    i = i + 1;
                }
                proof {
                    assert(keys.take(result@.len() as int) =~= keys);
                }
                true
            },
            _ => false,
        }
    }

    /// Looks up the resource stored under `k` for the list of a search.
    fn lookup_for_list(&mut self, k: &CacheKey) -> (r: Option<Option<Resource>>)
        requires
            old(self).wf(),
        ensures
            final(self).wf(),
            final(self).same_contents(*old(self)),
            match old(self).cache_of_kind(k@.0) {
                None => r == Some(None::<Resource>),
                Some(m) => if m.contains_key(k@) {
                    r matches Some(Some(res)) && res@ == Some(m[k@]@)
                } else {
                    r is None
                },
            },
    {
        if kind_is(&k.kind, "VirtualNetwork") {
            match lru_get(&mut self.virtual_network_cache, k) {
                Some(v) => Some(Some(Resource { resource: Some(v.duplicate()) })),
                None => None,
            }
        } else if kind_is(&k.kind, "VirtualMachine") {
            match lru_get(&mut self.virtual_machine_cache, k) {
                Some(v) => Some(Some(Resource { resource: Some(v.duplicate()) })),
                None => None,
            }
        } else if kind_is(&k.kind, "VirtualMachineInterface") {
            match lru_get(&mut self.virtual_machine_interface_cache, k) {
                Some(v) => Some(Some(Resource { resource: Some(v.duplicate()) })),
                None => None,
            }
        } else {
            Some(None)
        }
    }

    /// Searches the graph as `from_to_filter` asks, and lists the resources found.
    pub fn find(&mut self, from_to_filter: FromToFilter) -> (r: ResourceList)
        requires
            old(self).wf(),
            old(self).find_ok(from_to_filter),
        ensures
            final(self).wf(),
            final(self).same_contents(*old(self)),
            CacheStore::find_post(*old(self), from_to_filter, r),
            r@.len() == old(self).kept_keys(old(self).search_keys(from_to_filter)).len(),
            forall|i: int|
                0 <= i < r@.len() ==> {
                    let k = #[trigger] old(self).kept_keys(old(self).search_keys(from_to_filter))[i];
                    r@[i] == Some(old(self).cache_of_kind(k.0)->0[k]@)
                },
    {
        let ghost f = from_to_filter;
        let from_key = to_cache_key(from_to_filter.from.unwrap());
        let to_key = to_cache_key(from_to_filter.to.unwrap());
        let filter = from_to_filter.filter;
        let result = self.graph.traverse(from_key, to_key, filter);
        let ghost keys = keys_view(result@);
        assert(keys == old(self).search_keys(f));
        let mut resource_list: Vec<Resource> = Vec::new();
        for i in 0..result.len()
            invariant
                self.wf(),
                self.same_contents(*old(self)),
                keys == keys_view(result@),
                keys == old(self).search_keys(f),
                f == from_to_filter,
                old(self).list_spec(keys) is Some,
                old(self).list_spec(keys.take(i as int)) == Some(
                    resource_list@.map_values(|r: Resource| r@),
                ),
        {
            proof {
                assert(keys.take(i + 1).drop_last() =~= keys.take(i as int));
                assert(keys.take(i + 1).last() == result@[i as int]@);
            }
            match self.lookup_for_list(&result[i]) {
                None => {
                    proof {
                        assert(self.cache_of_kind(keys[i as int].0) == old(self).cache_of_kind(keys[i as int].0));
                        assert(old(self).list_spec(keys.take(i + 1)) is None);
                        old(self).lemma_list_none_extends(keys, i + 1, keys.len() as int);
                        assert(keys.take(keys.len() as int) =~= keys);
                        assert(false);
                    }
                    return ResourceList { resources: resource_list };
                },
                Some(Some(res)) => {
                    let ghost before = resource_list@.map_values(|r: Resource| r@);
                    let ghost rv = res@;
                    resource_list.push(res);
                    proof {
                        assert(resource_list@.map_values(|r: Resource| r@) =~= before.push(rv));
                    }
                },
                Some(None) => {},
            }
        }
        proof {
            assert(keys.take(result@.len() as int) =~= keys);
            old(self).lemma_list_matches_kept_keys(keys);
        }
        ResourceList { resources: resource_list }
    }

    /// A request that the cache can serve without failing: the references of a
    /// resource to add are complete, a lookup finds something where its kind is
    /// kept, and a search can be served.
    pub open spec fn action_ok(&self, action: Action) -> bool {
        match action {
            Action::Add(res) => references_complete(res.references()),
            Action::Get(key) => self.get_ok(key),
            Action::List(f) => self.find_ok(f),
        }
    }

    pub fn is_action_ok(&mut self, action: &Action) -> (b: bool)
        requires
            old(self).wf(),
        ensures
            *final(self) == *old(self),
            b == old(self).action_ok(*action),
    {
        match action {
            Action::Add(res) => match res {
                ResourceKeyReferences::VirtualNetwork(_, _, refs) => are_complete_references(refs),
                ResourceKeyReferences::VirtualMachine(_, _, refs) => are_complete_references(refs),
                ResourceKeyReferences::VirtualMachineInterface(_, _, refs) => are_complete_references(refs),
            },
            Action::Get(key) => self.can_get(key),
            Action::List(f) => self.can_find(f),
        }
    }

    /// Serves one request: the step of the cache's worker from one state to the
    /// next, with the answer to send back.
    pub fn handle(&mut self, action: Action) -> (r: CacheReply)
        requires
            old(self).wf(),
            old(self).action_ok(action),
        ensures
            final(self).wf(),
            match action {
                Action::Add(res) => r matches CacheReply::Added(x) && CacheStore::add_post(
                    *old(self),
                    *final(self),
                    res,
                    x,
                ),
                Action::Get(key) => r matches CacheReply::Got(o) && final(self).same_contents(*old(self))
                    && CacheStore::get_post(*old(self), key, o),
                Action::List(f) => r matches CacheReply::Listed(l) && final(self).same_contents(*old(self))
                    && CacheStore::find_post(*old(self), f, l),
            },
    {
        match action {
            Action::Add(res) => CacheReply::Added(self.add(res)),
            Action::Get(key) => CacheReply::Got(self.get(key)),
            Action::List(f) => CacheReply::Listed(self.find(f)),
        }
    }
}

} // verus!

verus! {

proof fn lemma_in_edges(edges: Map<KeyView, Seq<KeyView>>, sources: Seq<KeyView>, k: KeyView)
    ensures
        forall|i: int| 0 <= i < sources.len() ==> has_edge(add_in_edges(edges, sources, k), #[trigger] sources[i], k),
        forall|x: KeyView, y: KeyView| #[trigger] has_edge(edges, x, y) ==> has_edge(add_in_edges(edges, sources, k), x, y),
    decreases sources.len(),
{
    if sources.len() > 0 {
        let prev = add_in_edges(edges, sources.drop_last(), k);
        lemma_in_edges(edges, sources.drop_last(), k);
        lemma_add_edge_present(prev, sources.last(), k);
        assert forall|i: int| 0 <= i < sources.len() implies has_edge(
            add_in_edges(edges, sources, k),
            #[trigger] sources[i],
            k,
        ) by {
            if i < sources.len() - 1 {
                assert(sources.drop_last()[i] == sources[i]);
                assert(has_edge(prev, sources[i], k));
            }
        }
        assert forall|x: KeyView, y: KeyView| #[trigger] has_edge(edges, x, y) implies has_edge(
            add_in_edges(edges, sources, k),
            x,
            y,
        ) by {
            assert(has_edge(prev, x, y));
            assert(prev[x].contains(y));
        }
    }
}

proof fn lemma_out_edges(edges: Map<KeyView, Seq<KeyView>>, k: KeyView, targets: Seq<KeyView>)
    ensures
        forall|i: int| 0 <= i < targets.len() ==> has_edge(add_out_edges(edges, k, targets), k, #[trigger] targets[i]),
        forall|x: KeyView, y: KeyView| #[trigger] has_edge(edges, x, y) ==> has_edge(add_out_edges(edges, k, targets), x, y),
    decreases targets.len(),
{
    if targets.len() > 0 {
        let prev = add_out_edges(edges, k, targets.drop_last());
        lemma_out_edges(edges, k, targets.drop_last());
        lemma_add_edge_present(prev, k, targets.last());
        assert forall|i: int| 0 <= i < targets.len() implies has_edge(
            add_out_edges(edges, k, targets),
            k,
            #[trigger] targets[i],
        ) by {
            if i < targets.len() - 1 {
                assert(targets.drop_last()[i] == targets[i]);
                assert(has_edge(prev, k, targets[i]));
                assert(prev[k].contains(targets[i]));
            }
        }
        assert forall|x: KeyView, y: KeyView| #[trigger] has_edge(edges, x, y) implies has_edge(
            add_out_edges(edges, k, targets),
            x,
            y,
        ) by {
            assert(has_edge(prev, x, y));
            assert(prev[x].contains(y));
        }
    }
}

/// Recording a resource links it both ways with each resource it refers to,
/// and keeps every edge that was there.
pub proof fn lemma_update_links_both_ways(edges: Map<KeyView, Seq<KeyView>>, k: KeyView, targets: Seq<KeyView>)
    ensures
        forall|i: int| 0 <= i < targets.len() ==> has_edge(update_edges_spec(edges, k, targets), k, #[trigger] targets[i])
            && has_edge(update_edges_spec(edges, k, targets), targets[i], k),
        forall|x: KeyView, y: KeyView| #[trigger] has_edge(edges, x, y) ==> has_edge(update_edges_spec(edges, k, targets), x, y),
{
    lemma_in_edges(edges, targets, k);
    lemma_out_edges(add_in_edges(edges, targets, k), k, targets);
    assert forall|i: int| 0 <= i < targets.len() implies has_edge(update_edges_spec(edges, k, targets), k, #[trigger] targets[i])
        && has_edge(update_edges_spec(edges, k, targets), targets[i], k) by {
        assert(has_edge(add_in_edges(edges, targets, k), targets[i], k));
    }
}

/// Each cache holds resources of its own kind only, and never more than `usize::MAX` of them.
pub proof fn lemma_caches_hold_their_kind(store: CacheStore, k: KeyView)
    requires
        store.wf(),
    ensures
        store.networks().contains_key(k) ==> store.networks()[k] is VirtualNetwork,
        store.machines().contains_key(k) ==> store.machines()[k] is VirtualMachine,
        store.interfaces().contains_key(k) ==> store.interfaces()[k] is VirtualMachineInterface,
        store.networks().len() <= usize::MAX,
        store.machines().len() <= usize::MAX,
        store.interfaces().len() <= usize::MAX,
{
}

proof fn lemma_in_edges_exact(edges: Map<KeyView, Seq<KeyView>>, sources: Seq<KeyView>, k: KeyView)
    ensures
        forall|x: KeyView, y: KeyView|
            #[trigger] has_edge(add_in_edges(edges, sources, k), x, y) <==> has_edge(edges, x, y) || (y == k
                && sources.contains(x)),
    decreases sources.len(),
{
    if sources.len() > 0 {
        let init = sources.drop_last();
        lemma_in_edges_exact(edges, init, k);
        let prev = add_in_edges(edges, init, k);
        lemma_add_edge_edges(prev, sources.last(), k);
        assert forall|x: KeyView, y: KeyView| #[trigger] has_edge(add_in_edges(edges, sources, k), x, y) <==> has_edge(
            edges,
            x,
            y,
        ) || (y == k && sources.contains(x)) by {
            assert(has_edge(add_in_edges(edges, sources, k), x, y) == has_edge(prev, x, y) || (x == sources.last()
                && y == k));
            if init.contains(x) {
                let i = choose|i: int| 0 <= i < init.len() && init[i] == x;
                assert(sources[i] == x);
            }
            if sources.contains(x) {
                let i = choose|i: int| 0 <= i < sources.len() && sources[i] == x;
                if i < sources.len() - 1 {
                    assert(init[i] == x);
                }
            }
        }
    }
}

proof fn lemma_out_edges_exact(edges: Map<KeyView, Seq<KeyView>>, k: KeyView, targets: Seq<KeyView>)
    ensures
        forall|x: KeyView, y: KeyView|
            #[trigger] has_edge(add_out_edges(edges, k, targets), x, y) <==> has_edge(edges, x, y) || (x == k
                && targets.contains(y)),
    decreases targets.len(),
{
    if targets.len() > 0 {
        let init = targets.drop_last();
        lemma_out_edges_exact(edges, k, init);
        let prev = add_out_edges(edges, k, init);
        lemma_add_edge_edges(prev, k, targets.last());
        assert forall|x: KeyView, y: KeyView| #[trigger] has_edge(add_out_edges(edges, k, targets), x, y) <==> has_edge(
            edges,
            x,
            y,
        ) || (x == k && targets.contains(y)) by {
            assert(has_edge(add_out_edges(edges, k, targets), x, y) == has_edge(prev, x, y) || (x == k && y
                == targets.last()));
            if init.contains(y) {
                let i = choose|i: int| 0 <= i < init.len() && init[i] == y;
                assert(targets[i] == y);
            }
            if targets.contains(y) {
                let i = choose|i: int| 0 <= i < targets.len() && targets[i] == y;
                if i < targets.len() - 1 {
                    assert(init[i] == y);
                }
            }
        }
    }
}

/// Recording a resource under `k` with references to `targets` adds exactly the
/// edges between `k` and each target, both ways: every edge afterwards was
/// there before or joins `k` with one of the targets.
pub proof fn lemma_update_edges_exact(edges: Map<KeyView, Seq<KeyView>>, k: KeyView, targets: Seq<KeyView>)
    ensures
        forall|x: KeyView, y: KeyView|
            #[trigger] has_edge(update_edges_spec(edges, k, targets), x, y) <==> has_edge(edges, x, y) || (x == k
                && targets.contains(y)) || (y == k && targets.contains(x)),
{
    lemma_in_edges_exact(edges, targets, k);
    lemma_out_edges_exact(add_in_edges(edges, targets, k), k, targets);
    assert forall|x: KeyView, y: KeyView| #[trigger] has_edge(update_edges_spec(edges, k, targets), x, y) <==> has_edge(
        edges,
        x,
        y,
    ) || (x == k && targets.contains(y)) || (y == k && targets.contains(x)) by {
        assert(has_edge(update_edges_spec(edges, k, targets), x, y) == (has_edge(add_in_edges(edges, targets, k), x, y)
            || (x == k && targets.contains(y))));
    }
}

/// A search lists one resource for each key it reaches whose kind the cache
/// keeps, in the order reached: as many entries as such keys, the i-th being
/// what is stored under the i-th of them.
pub proof fn lemma_find_lists_each_kept_key(before: CacheStore, f: FromToFilter, r: ResourceList)
    requires
        before.find_ok(f),
        CacheStore::find_post(before, f, r),
    ensures
        r@.len() == before.kept_keys(before.search_keys(f)).len(),
        forall|i: int|
            0 <= i < r@.len() ==> {
                let k = #[trigger] before.kept_keys(before.search_keys(f))[i];
                &&& before.search_keys(f).contains(k)
                &&& before.cache_of_kind(k.0) is Some
                &&& before.cache_of_kind(k.0)->0.contains_key(k)
                &&& r@[i] == Some(before.cache_of_kind(k.0)->0[k]@)
            },
        forall|j: int|
            0 <= j < before.search_keys(f).len() && before.cache_of_kind((#[trigger] before.search_keys(f)[j]).0) is Some
                ==> before.kept_keys(before.search_keys(f)).contains(before.search_keys(f)[j]),
{
    let keys = before.search_keys(f);
    before.lemma_list_matches_kept_keys(keys);
    before.lemma_kept_keys(keys);
}

/// The kind whose cache a resource goes to.
pub open spec fn variant_kind(resource: ResourceKeyReferences) -> Seq<char> {
    match resource {
        ResourceKeyReferences::VirtualNetwork(..) => virtual_network_kind(),
        ResourceKeyReferences::VirtualMachine(..) => virtual_machine_kind(),
        ResourceKeyReferences::VirtualMachineInterface(..) => virtual_machine_interface_kind(),
    }
}

/// The cache for the resource's kind has its key already, or room below `usize::MAX`.
pub open spec fn has_room(store: CacheStore, resource: ResourceKeyReferences) -> bool {
    let m = store.cache_of_kind(variant_kind(resource))->0;
    m.contains_key(resource.key()@) || m.len() < usize::MAX
}

pub proof fn lemma_kinds_distinct()
    ensures
        virtual_network_kind() != virtual_machine_kind(),
        virtual_network_kind() != virtual_machine_interface_kind(),
        virtual_machine_kind() != virtual_machine_interface_kind(),
{
    broadcast use vstd::string::group_string_axioms;
    reveal_strlit("VirtualNetwork");
    reveal_strlit("VirtualMachine");
    reveal_strlit("VirtualMachineInterface");
    assert("VirtualNetwork"@.len() == 14);
    assert("VirtualMachine"@.len() == 14);
    assert("VirtualMachineInterface"@.len() == 23);
    assert("VirtualNetwork"@[7] != "VirtualMachine"@[7]);
}

/// A read gives back what a write wrote: once the cache has taken a resource
/// under a key of the resource's own kind, a lookup of that key finds it,
/// unless the cache for that kind was full and evicted an entry.
pub proof fn lemma_get_after_add(
    before: CacheStore,
    after: CacheStore,
    resource: ResourceKeyReferences,
    r: Result<(), NodeNotExist>,
    o: GetOutcome,
)
    requires
        CacheStore::add_post(before, after, resource, r),
        resource.key().kind@ == variant_kind(resource),
        has_room(before, resource),
        CacheStore::get_post(after, resource.key(), o),
    ensures
        after.get_ok(resource.key()),
        o matches GetOutcome::Found(res) && res@ == Some(resource.variant()@),
{
    lemma_kinds_distinct();
}

/// One request served by the cache: a resource taken, with its answer, or a
/// lookup or search, which changes nothing that a lookup can tell apart.
pub enum CacheEvent {
    Added(ResourceKeyReferences, Result<(), NodeNotExist>),
    Served,
}

/// A run of the cache: `stores[i + 1]` is the state after event `events[i]`,
/// served in state `stores[i]`, as `handle` states it.
pub open spec fn cache_run(stores: Seq<CacheStore>, events: Seq<CacheEvent>) -> bool {
    &&& stores.len() == events.len() + 1
    &&& forall|i: int|
        0 <= i < events.len() ==> match #[trigger] events[i] {
            CacheEvent::Added(res, r) => CacheStore::add_post(stores[i], stores[i + 1], res, r),
            CacheEvent::Served => stores[i + 1].same_contents(stores[i]),
        }
}

/// The later event does not disturb what `resource` stored: it adds nothing of
/// the same variant under the same key, and any resource of the same variant
/// finds room without evicting an entry.
pub open spec fn leaves_entry(store: CacheStore, event: CacheEvent, resource: ResourceKeyReferences) -> bool {
    match event {
        CacheEvent::Added(res2, _) => variant_kind(res2) == variant_kind(resource) ==> {
            &&& res2.key()@ != resource.key()@
            &&& has_room(store, res2)
        },
        CacheEvent::Served => true,
    }
}

proof fn lemma_entry_persists(
    stores: Seq<CacheStore>,
    events: Seq<CacheEvent>,
    resource: ResourceKeyReferences,
    m: int,
)
    requires
        cache_run(stores, events),
        1 <= m <= events.len(),
        events[0] matches CacheEvent::Added(res, _) && res == resource,
        has_room(stores[0], resource),
        forall|i: int| 1 <= i < events.len() ==> leaves_entry(stores[i], #[trigger] events[i], resource),
    ensures
        stores[m].cache_of_kind(variant_kind(resource)) is Some,
        stores[m].cache_of_kind(variant_kind(resource))->0.contains_key(resource.key()@),
        stores[m].cache_of_kind(variant_kind(resource))->0[resource.key()@] == resource.variant(),
    decreases m,
{
    lemma_kinds_distinct();
    let kind = variant_kind(resource);
    let k = resource.key()@;
    if m == 1 {
        assert(match events[0] {
            CacheEvent::Added(res, r) => CacheStore::add_post(stores[0], stores[1], res, r),
            CacheEvent::Served => stores[1].same_contents(stores[0]),
        });
    } else {
        lemma_entry_persists(stores, events, resource, m - 1);
        let d = m - 1;
        assert(leaves_entry(stores[d], events[d], resource));
        match events[d] {
            CacheEvent::Added(res2, r2) => {
                assert(CacheStore::add_post(stores[d], stores[d + 1], res2, r2));
                if variant_kind(res2) != kind {
                    lemma_add_keeps_other_kinds(stores[d], stores[d + 1], res2, r2, kind);
                }
            },
            CacheEvent::Served => {
                assert(stores[d + 1].same_contents(stores[d]));
            },
        }
    }
}

/// A read gives back what a write wrote, whatever came between: once the cache
/// has taken a resource under a key of the resource's own kind, a lookup of
/// that key after any further requests finds it, as long as none of them stored
/// a resource of the same variant under the same key or evicted an entry of
/// that variant's cache.
pub proof fn lemma_get_after_requests(
    stores: Seq<CacheStore>,
    events: Seq<CacheEvent>,
    resource: ResourceKeyReferences,
    o: GetOutcome,
)
    requires
        cache_run(stores, events),
        events.len() >= 1,
        events[0] matches CacheEvent::Added(res, _) && res == resource,
        resource.key().kind@ == variant_kind(resource),
        has_room(stores[0], resource),
        forall|i: int| 1 <= i < events.len() ==> leaves_entry(stores[i], #[trigger] events[i], resource),
        CacheStore::get_post(stores[events.len() as int], resource.key(), o),
    ensures
        stores[events.len() as int].get_ok(resource.key()),
        o matches GetOutcome::Found(res) && res@ == Some(resource.variant()@),
{
    lemma_entry_persists(stores, events, resource, events.len() as int);
}

/// Taking a resource leaves the caches of the other kinds as they were.
pub proof fn lemma_add_keeps_other_kinds(
    before: CacheStore,
    after: CacheStore,
    resource: ResourceKeyReferences,
    r: Result<(), NodeNotExist>,
    kind: Seq<char>,
)
    requires
        CacheStore::add_post(before, after, resource, r),
        kind != variant_kind(resource),
    ensures
        after.cache_of_kind(kind) == before.cache_of_kind(kind),
{
    lemma_kinds_distinct();
}

} // verus!
