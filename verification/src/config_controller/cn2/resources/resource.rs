use vstd::prelude::*;
use crate::api::{Key, KeyAction, KeyActionKind, ResourceReference, ResourceVariant, VirtualNetwork};
use crate::cache_controller::cache::ResourceKeyReferences;
use crate::cache_controller::cache::AddError;
use crate::keyed::AssocList;
use crate::cache_controller::cache_key::strings_view;

verus! {

/// The kinds of resources that the cn2 controller follows, in the order in
/// which their controllers start.
pub fn res_list() -> (r: Vec<String>)
    ensures
        strings_view(r@) == seq!["VirtualNetwork"@, "VirtualMachineInterface"@, "VirtualMachine"@],
{
    let mut r: Vec<String> = Vec::new();
    r.push("VirtualNetwork".to_owned());
    r.push("VirtualMachineInterface".to_owned());
    r.push("VirtualMachine".to_owned());
    assert(strings_view(r@) =~= seq!["VirtualNetwork"@, "VirtualMachineInterface"@, "VirtualMachine"@]);
    r
}

/// The controller that handles the resources of one kind.
#[derive(Debug, Clone, Copy, PartialEq, Eq)]
pub enum ResourceControllerKind {
    VirtualNetwork,
    VirtualMachineInterface,
    VirtualMachine,
}

/// The controller for the kind `name`; a name that is not known gets the
/// controller of virtual machine interfaces.
pub fn get_res(name: String) -> (r: ResourceControllerKind)
    ensures
        name@ == "VirtualNetwork"@ ==> r is VirtualNetwork,
        name@ != "VirtualNetwork"@ && name@ == "VirtualMachineInterface"@ ==> r is VirtualMachineInterface,
        name@ != "VirtualNetwork"@ && name@ != "VirtualMachineInterface"@ && name@ == "VirtualMachine"@
            ==> r is VirtualMachine,
        name@ != "VirtualNetwork"@ && name@ != "VirtualMachineInterface"@ && name@ != "VirtualMachine"@
            ==> r is VirtualMachineInterface,
{
    if name == "VirtualNetwork".to_owned() {
        ResourceControllerKind::VirtualNetwork
    } else if name == "VirtualMachineInterface".to_owned() {
        ResourceControllerKind::VirtualMachineInterface
    } else if name == "VirtualMachine".to_owned() {
        ResourceControllerKind::VirtualMachine
    } else {
        ResourceControllerKind::VirtualMachineInterface
    }
}

/// The action that a number on the wire stands for: 0 adds, 1 deletes, 2 retries.
pub open spec fn action_kind(action: i32) -> Option<KeyActionKind> {
    if action == 0 {
        Some(KeyActionKind::Add)
    } else if action == 1 {
        Some(KeyActionKind::Del)
    } else if action == 2 {
        Some(KeyActionKind::Retry)
    } else {
        None
    }
}

pub fn action_from_i32(action: i32) -> (r: Option<KeyActionKind>)
    ensures
        r == action_kind(action),
{
    if action == 0 {
        Some(KeyActionKind::Add)
    } else if action == 1 {
        Some(KeyActionKind::Del)
    } else if action == 2 {
        Some(KeyActionKind::Retry)
    } else {
        None
    }
}

pub fn action_to_i32(kind: KeyActionKind) -> (r: i32)
    ensures
        action_kind(r) == Some(kind),
{
    match kind {
        KeyActionKind::Add => 0,
        KeyActionKind::Del => 1,
        KeyActionKind::Retry => 2,
    }
}

/// The string under which a key is tracked: kind, namespace and name, joined by `/`.
pub open spec fn resource_key_spec(k: Key) -> Seq<char> {
    k.kind@ + "/"@ + k.namespace@ + "/"@ + k.name@
}

pub fn resource_key(k: &Key) -> (r: String)
    ensures
        r@ == resource_key_spec(*k),
{
    k.kind.clone().concat("/").concat(k.namespace.as_str()).concat("/").concat(k.name.as_str())
}

/// What a resource controller does after it took one key action.
#[derive(Debug)]
pub enum KeyActionStep {
    /// Fetch and process the resource of the key.
    Process(Key),
    /// Send this key action back to the controller itself.
    Requeue(KeyAction),
    /// Nothing.
    Idle,
    /// Stop: the action is not known.
    Stop,
}

/// The keys that a resource controller is working on, and those of them that
/// were asked for again meanwhile, each under its tracking string.
pub struct KeyActionTracker {
    w_map: AssocList<String, Key>,
    r_map: AssocList<String, Key>,
}

impl KeyActionTracker {
    pub closed spec fn wf(&self) -> bool {
        &&& self.w_map.wf()
        &&& self.r_map.wf()
        &&& self.in_progress().dom().finite()
        &&& self.requested_again().dom().finite()
        &&& self.requested_again().dom().subset_of(self.in_progress().dom())
    }

    /// The keys being worked on.
    pub closed spec fn in_progress(&self) -> Map<Seq<char>, Key> {
        self.w_map.map()
    }

    /// The keys asked for again while they were being worked on.
    pub closed spec fn requested_again(&self) -> Map<Seq<char>, Key> {
        self.r_map.map()
    }

    /// A key action that the tracker can take: a known action comes with a key.
    pub open spec fn key_action_ok(ka: KeyAction) -> bool {
        action_kind(ka.action) is Some ==> ka.key is Some
    }

    /// The tracker's answer to `ka` and its state after it.
    pub open spec fn step_post(before: KeyActionTracker, after: KeyActionTracker, ka: KeyAction, r: KeyActionStep) -> bool {
        match action_kind(ka.action) {
            None => r is Stop && after.in_progress() == before.in_progress() && after.requested_again()
                == before.requested_again(),
            Some(KeyActionKind::Add) => {
                let key = ka.key->0;
                let rk = resource_key_spec(key);
                if before.in_progress().contains_key(rk) {
                    &&& r is Idle
                    &&& after.in_progress() == before.in_progress()
                    &&& after.requested_again() == if before.requested_again().contains_key(rk) {
                        before.requested_again()
                    } else {
                        before.requested_again().insert(rk, key)
                    }
                } else {
                    &&& r == KeyActionStep::Process(key)
                    &&& after.in_progress() == before.in_progress().insert(rk, key)
                    &&& after.requested_again() == before.requested_again()
                }
            },
            Some(KeyActionKind::Del) => {
                let key = ka.key->0;
                let rk = resource_key_spec(key);
                &&& after.in_progress() == before.in_progress().remove(rk)
                &&& after.requested_again() == before.requested_again().remove(rk)
                &&& if before.requested_again().contains_key(rk) {
                    r == KeyActionStep::Requeue(KeyAction { key: Some(key), action: 0 })
                } else {
                    r is Idle
                }
            },
            Some(KeyActionKind::Retry) => {
                let key = ka.key->0;
                let rk = resource_key_spec(key);
                &&& r == KeyActionStep::Process(key)
                &&& after.in_progress() == before.in_progress()
                &&& after.requested_again() == before.requested_again().remove(rk)
            },
        }
    }

    pub fn new() -> (t: KeyActionTracker)
        ensures
            t.wf(),
            t.in_progress() == Map::<Seq<char>, Key>::empty(),
            t.requested_again() == Map::<Seq<char>, Key>::empty(),
    {
        KeyActionTracker { w_map: AssocList::new(), r_map: AssocList::new() }
    }

    pub fn is_key_action_ok(ka: &KeyAction) -> (b: bool)
        ensures
            b == KeyActionTracker::key_action_ok(*ka),
    {
        action_from_i32(ka.action).is_none() || ka.key.is_some()
    }

    /// Takes one key action: the decisions of a resource controller's loop.
    pub fn step(&mut self, ka: KeyAction) -> (r: KeyActionStep)
        requires
            old(self).wf(),
            KeyActionTracker::key_action_ok(ka),
        ensures
            final(self).wf(),
            KeyActionTracker::step_post(*old(self), *final(self), ka, r),
            action_kind(ka.action) == Some(KeyActionKind::Del) ==> !final(self).in_progress().contains_key(
                resource_key_spec(ka.key->0),
            ),
    {
        let ghost ka0 = ka;
        let r = match action_from_i32(ka.action) {
            Some(KeyActionKind::Add) => {
                let key = ka.key.unwrap();
                let rk = resource_key(&key);
                if self.w_map.contains_key(&rk) {
                    if !self.r_map.contains_key(&rk) {
                        self.r_map.insert(rk, key);
                    }
                    KeyActionStep::Idle
                } else {
                    self.w_map.insert(rk, key.duplicate());
                    KeyActionStep::Process(key)
                }
            },
            Some(KeyActionKind::Del) => {
                let key = ka.key.unwrap();
                let rk = resource_key(&key);
                if self.w_map.contains_key(&rk) {
                    self.w_map.remove(&rk);
                } else {
                    assert(self.in_progress() =~= old(self).in_progress().remove(rk@));
                }
                if self.r_map.contains_key(&rk) {
                    self.r_map.remove(&rk);
                    KeyActionStep::Requeue(KeyAction { key: Some(key), action: action_to_i32(KeyActionKind::Add) })
                } else {
                    assert(self.requested_again() =~= old(self).requested_again().remove(rk@));
                    KeyActionStep::Idle
                }
            },
            Some(KeyActionKind::Retry) => {
                let key = ka.key.unwrap();
                let rk = resource_key(&key);
                if self.r_map.contains_key(&rk) {
                    self.r_map.remove(&rk);
                } else {
                    assert(self.requested_again() =~= old(self).requested_again().remove(rk@));
                }
                KeyActionStep::Process(key)
            },
            None => KeyActionStep::Stop,
        };
        proof {
            if action_kind(ka0.action) == Some(KeyActionKind::Del) {
                lemma_del_frees_key(*old(self), *self, ka0, r);
            }
        }
        r
    }
}

/// Every key asked for again is one that is being worked on.
pub proof fn lemma_requested_again_in_progress(t: KeyActionTracker, rk: Seq<char>)
    requires
        t.wf(),
        t.requested_again().contains_key(rk),
    ensures
        t.in_progress().contains_key(rk),
{
}

/// A key being worked on is not handed out for processing again when it is
/// added once more; the repeated request is remembered instead.
pub proof fn lemma_no_second_processing(
    before: KeyActionTracker,
    after: KeyActionTracker,
    ka: KeyAction,
    r: KeyActionStep,
)
    requires
        KeyActionTracker::step_post(before, after, ka, r),
        action_kind(ka.action) == Some(KeyActionKind::Add),
        before.in_progress().contains_key(resource_key_spec(ka.key->0)),
    ensures
        r is Idle,
        after.requested_again().contains_key(resource_key_spec(ka.key->0)),
{
}

/// A request that came while its key was worked on is not lost: when the key
/// is deleted, the add comes back to the controller, and the key is free again.
pub proof fn lemma_repeated_request_requeued(
    before: KeyActionTracker,
    after: KeyActionTracker,
    ka: KeyAction,
    r: KeyActionStep,
)
    requires
        KeyActionTracker::step_post(before, after, ka, r),
        action_kind(ka.action) == Some(KeyActionKind::Del),
        ka.key is Some,
        before.requested_again().contains_key(resource_key_spec(ka.key->0)),
    ensures
        r matches KeyActionStep::Requeue(next) && next.key == ka.key && action_kind(next.action) == Some(KeyActionKind::Add),
        !after.in_progress().contains_key(resource_key_spec(ka.key->0)),
        !after.requested_again().contains_key(resource_key_spec(ka.key->0)),
{
}

/// A run of a tracker: `ts[i + 1]` and `rs[i]` are the state and answer after
/// key action `kas[i]`, taken in state `ts[i]`.
pub open spec fn tracker_run(ts: Seq<KeyActionTracker>, kas: Seq<KeyAction>, rs: Seq<KeyActionStep>) -> bool {
    &&& ts.len() == kas.len() + 1
    &&& rs.len() == kas.len()
    &&& forall|i: int|
        0 <= i < kas.len() ==> KeyActionTracker::key_action_ok(#[trigger] kas[i]) && KeyActionTracker::step_post(
            ts[i],
            ts[i + 1],
            kas[i],
            rs[i],
        )
}

/// Whether `ka` asks for `kind` on the key tracked as `rk`.
pub open spec fn acts_on(ka: KeyAction, kind: KeyActionKind, rk: Seq<char>) -> bool {
    &&& action_kind(ka.action) == Some(kind)
    &&& resource_key_spec(ka.key->0) == rk
}

proof fn lemma_in_progress_persists(
    ts: Seq<KeyActionTracker>,
    kas: Seq<KeyAction>,
    rs: Seq<KeyActionStep>,
    rk: Seq<char>,
    i: int,
    m: int,
)
    requires
        tracker_run(ts, kas, rs),
        0 <= i < m <= kas.len(),
        ts[i + 1].in_progress().contains_key(rk),
        forall|d: int| i < d < m ==> !acts_on(#[trigger] kas[d], KeyActionKind::Del, rk),
    ensures
        ts[m].in_progress().contains_key(rk),
    decreases m - i,
{
    if m > i + 1 {
        lemma_in_progress_persists(ts, kas, rs, rk, i, m - 1);
        let d = m - 1;
        assert(KeyActionTracker::step_post(ts[d], ts[d + 1], kas[d], rs[d]));
        assert(!acts_on(kas[d], KeyActionKind::Del, rk));
    }
}

/// Over any run, two additions of the same key that are both handed out for
/// processing have a deletion of that key between them: a key is never
/// processed twice at once.
pub proof fn lemma_processing_needs_deletion_between(
    ts: Seq<KeyActionTracker>,
    kas: Seq<KeyAction>,
    rs: Seq<KeyActionStep>,
    rk: Seq<char>,
    i: int,
    j: int,
)
    requires
        tracker_run(ts, kas, rs),
        0 <= i < j < kas.len(),
        acts_on(kas[i], KeyActionKind::Add, rk),
        acts_on(kas[j], KeyActionKind::Add, rk),
        rs[i] is Process,
        rs[j] is Process,
    ensures
        exists|m: int| i < m < j && acts_on(#[trigger] kas[m], KeyActionKind::Del, rk),
{
    assert(KeyActionTracker::step_post(ts[i], ts[i + 1], kas[i], rs[i]));
    assert(KeyActionTracker::step_post(ts[j], ts[j + 1], kas[j], rs[j]));
    if !exists|m: int| i < m < j && acts_on(#[trigger] kas[m], KeyActionKind::Del, rk) {
        lemma_in_progress_persists(ts, kas, rs, rk, i, j);
    }
}

proof fn lemma_request_persists(
    ts: Seq<KeyActionTracker>,
    kas: Seq<KeyAction>,
    rs: Seq<KeyActionStep>,
    rk: Seq<char>,
    a: int,
    m: int,
)
    requires
        tracker_run(ts, kas, rs),
        0 <= a < m <= kas.len(),
        ts[a + 1].requested_again().contains_key(rk),
        forall|d: int|
            a < d < m ==> !acts_on(#[trigger] kas[d], KeyActionKind::Del, rk) && !acts_on(
                kas[d],
                KeyActionKind::Retry,
                rk,
            ),
    ensures
        ts[m].requested_again().contains_key(rk),
    decreases m - a,
{
    if m > a + 1 {
        lemma_request_persists(ts, kas, rs, rk, a, m - 1);
        let d = m - 1;
        assert(KeyActionTracker::step_post(ts[d], ts[d + 1], kas[d], rs[d]));
        assert(!acts_on(kas[d], KeyActionKind::Del, rk) && !acts_on(kas[d], KeyActionKind::Retry, rk));
    }
}

/// Over any run, an addition that comes while its key is being worked on is
/// not lost: the next deletion of that key sends exactly one addition back,
/// however many additions came meanwhile, unless a retry of the key came first.
pub proof fn lemma_repeated_requests_requeued_once(
    ts: Seq<KeyActionTracker>,
    kas: Seq<KeyAction>,
    rs: Seq<KeyActionStep>,
    rk: Seq<char>,
    a: int,
    m: int,
)
    requires
        tracker_run(ts, kas, rs),
        0 <= a < m < kas.len(),
        acts_on(kas[a], KeyActionKind::Add, rk),
        ts[a].in_progress().contains_key(rk),
        acts_on(kas[m], KeyActionKind::Del, rk),
        forall|d: int|
            a < d < m ==> !acts_on(#[trigger] kas[d], KeyActionKind::Del, rk) && !acts_on(
                kas[d],
                KeyActionKind::Retry,
                rk,
            ),
    ensures
        rs[m] matches KeyActionStep::Requeue(next) && next.key == kas[m].key && action_kind(next.action)
            == Some(KeyActionKind::Add),
        !ts[m + 1].requested_again().contains_key(rk),
{
    assert(KeyActionTracker::key_action_ok(kas[a]));
    assert(KeyActionTracker::step_post(ts[a], ts[a + 1], kas[a], rs[a]));
    assert(KeyActionTracker::key_action_ok(kas[m]));
    assert(KeyActionTracker::step_post(ts[m], ts[m + 1], kas[m], rs[m]));
    lemma_request_persists(ts, kas, rs, rk, a, m);
}

/// A deletion frees its key, whatever was asked for again meanwhile: after it
/// the key is neither being worked on nor asked for again, and every other key
/// keeps its place.
pub proof fn lemma_del_frees_key(
    before: KeyActionTracker,
    after: KeyActionTracker,
    ka: KeyAction,
    r: KeyActionStep,
)
    requires
        KeyActionTracker::step_post(before, after, ka, r),
        action_kind(ka.action) == Some(KeyActionKind::Del),
    ensures
        !after.in_progress().contains_key(resource_key_spec(ka.key->0)),
        !after.requested_again().contains_key(resource_key_spec(ka.key->0)),
        forall|rk: Seq<char>| rk != resource_key_spec(ka.key->0) ==> (after.in_progress().contains_key(rk)
            <==> before.in_progress().contains_key(rk)),
{
}

/// After a deletion of a key, the next addition of that key is handed out for
/// processing: a resource that changed after it was cached is fetched again.
pub proof fn lemma_add_after_del_processes(
    t0: KeyActionTracker,
    t1: KeyActionTracker,
    t2: KeyActionTracker,
    del: KeyAction,
    add: KeyAction,
    r1: KeyActionStep,
    r2: KeyActionStep,
)
    requires
        KeyActionTracker::step_post(t0, t1, del, r1),
        KeyActionTracker::step_post(t1, t2, add, r2),
        action_kind(del.action) == Some(KeyActionKind::Del),
        action_kind(add.action) == Some(KeyActionKind::Add),
        add.key is Some,
        resource_key_spec(add.key->0) == resource_key_spec(del.key->0),
    ensures
        r2 == KeyActionStep::Process(add.key->0),
        t2.in_progress().contains_key(resource_key_spec(add.key->0)),
{
    lemma_del_frees_key(t0, t1, del, r1);
}

/// What goes to the cache for a fetched virtual network: the network under its
/// key, with no references.
pub fn virtual_network_entry(res: VirtualNetwork, key: Key) -> (r: ResourceKeyReferences)
    ensures
        r is VirtualNetwork,
        r.variant() == ResourceVariant::VirtualNetwork(res),
        r.key() == key,
        r.references() == Seq::<ResourceReference>::empty(),
{
    let references: Vec<ResourceReference> = Vec::new();
    ResourceKeyReferences::VirtualNetwork(res, key, references)
}

/// The action that follows an attempt to put a fetched resource in the cache:
/// delete the key from the work list where it was taken, else retry.
pub fn after_cache_add(key: Key, add_result: Result<(), AddError>) -> (r: KeyAction)
    ensures
        r.key == Some(key),
        add_result is Ok ==> action_kind(r.action) == Some(KeyActionKind::Del),
        add_result is Err ==> action_kind(r.action) == Some(KeyActionKind::Retry),
{
    match add_result {
        Ok(()) => KeyAction { key: Some(key), action: action_to_i32(KeyActionKind::Del) },
        Err(_) => KeyAction { key: Some(key), action: action_to_i32(KeyActionKind::Retry) },
    }
}

/// The action that follows a failed fetch: a resource that does not exist is
/// deleted from the work list; any other failure is retried.
pub fn after_fetch_error(key: Key, not_found: bool) -> (r: KeyAction)
    ensures
        r.key == Some(key),
        not_found ==> action_kind(r.action) == Some(KeyActionKind::Del),
        !not_found ==> action_kind(r.action) == Some(KeyActionKind::Retry),
{
    if not_found {
        KeyAction { key: Some(key), action: action_to_i32(KeyActionKind::Del) }
    } else {
        KeyAction { key: Some(key), action: action_to_i32(KeyActionKind::Retry) }
    }
}

} // verus!
