//! The component manager: components declare which other components they are
//! peers of, require, and notify; the manager checks that these relations
//! hold together and computes the order in which components run.

use vstd::prelude::*;
use crate::text::same_text;
use crate::dep_graph::{
    edges_without, get_invocation_order, graph_add_edge, graph_add_node, graph_clone, graph_edges,
    graph_new, graph_node_count, graph_node_indices, graph_nodes, graph_out_edges, graph_wf,
    has_selected_out_edge, law_peel_order_is_topological, law_peel_order_lists_distinct_nodes,
    law_peel_order_spares_closed_sets, closed_under_selected, peel_order, selects, DepGraph,
};
use crate::name_index::{
    name_index_contains_name, name_index_get_by_index, name_index_get_by_name, name_index_insert,
    name_index_new, name_index_pairs, name_index_wf, NameIndex,
};

verus! {

/// What a component tells the manager about its relations.
pub struct ComponentDecl {
    /// Components that talk with this one both ways; must be mutual.
    pub peers: Vec<String>,
    /// Components whose result this one consumes at each tick.
    pub requirements: Vec<String>,
    /// Components this one sends notifications to.
    pub notify: Vec<String>,
    /// Whether this component receives notifications.
    pub accept_notifications: bool,
}

/// A registered component: its name, its declaration and the list of the
/// names it relates to. The id of a relation is its position in that list:
/// peers first, then notified components, then requirements.
pub struct ComponentHandle {
    pub name: String,
    pub decl: ComponentDecl,
    pub relations: Vec<String>,
}

/// The views of a sequence of strings.
pub open spec fn views(s: Seq<String>) -> Seq<Seq<char>> {
    s.map_values(|x: String| x@)
}

/// The relation list of a declaration: peers, then notified, then required.
pub open spec fn relation_names(d: ComponentDecl) -> Seq<Seq<char>> {
    views(d.peers@) + views(d.notify@) + views(d.requirements@)
}

/// Whether no name occurs twice.
pub open spec fn distinct_names(s: Seq<Seq<char>>) -> bool {
    forall|i: int, j: int| 0 <= i < j < s.len() ==> s[i] != s[j]
}

/// A handle holds the relation list of its declaration, without repetition.
pub open spec fn handle_wf(h: ComponentHandle) -> bool {
    &&& views(h.relations@) == relation_names(h.decl)
    &&& distinct_names(views(h.relations@))
}

/// Whether the name is the name of a registered component.
pub open spec fn hosted(c: Seq<ComponentHandle>, name: Seq<char>) -> bool {
    exists|i: int| 0 <= i < c.len() && (#[trigger] c[i]).name@ == name
}

/// Whether some registered component relates to the name.
pub open spec fn referenced(c: Seq<ComponentHandle>, name: Seq<char>) -> bool {
    exists|i: int, j: int| 0 <= i < c.len() && 0 <= j < c[i].relations.len() && (#[trigger] c[i].relations[j])@ == name
}

/// Every name in use: registered, or related to by a registered component.
pub open spec fn names_in_use(c: Seq<ComponentHandle>) -> Set<Seq<char>> {
    Set::new(|n: Seq<char>| hosted(c, n) || referenced(c, n))
}

/// The names and relation names of the first `n` components, in order.
pub open spec fn names_listed(c: Seq<ComponentHandle>, n: int) -> Seq<Seq<char>>
    decreases n,
{
    if n <= 0 {
        Seq::empty()
    } else {
        names_listed(c, n - 1).push(c[n - 1].name@) + views(c[n - 1].relations@)
    }
}

proof fn lemma_names_listed(c: Seq<ComponentHandle>, n: int)
    requires
        0 <= n <= c.len(),
    ensures
        forall|x: Seq<char>| #[trigger] names_listed(c, n).contains(x) <==>
            (exists|i: int| 0 <= i < n && (#[trigger] c[i]).name@ == x)
            || (exists|i: int, j: int| 0 <= i < n && 0 <= j < c[i].relations.len() && (#[trigger] c[i].relations[j])@ == x),
    decreases n,
{
    if n > 0 {
        lemma_names_listed(c, n - 1);
        let p = names_listed(c, n - 1).push(c[n - 1].name@);
        let v = views(c[n - 1].relations@);
        assert forall|x: Seq<char>| #[trigger] names_listed(c, n).contains(x) <==>
            (exists|i: int| 0 <= i < n && (#[trigger] c[i]).name@ == x)
            || (exists|i: int, j: int| 0 <= i < n && 0 <= j < c[i].relations.len() && (#[trigger] c[i].relations[j])@ == x) by {
            let s = names_listed(c, n);
            assert(s == p + v);
            if s.contains(x) {
                let k = choose|k: int| 0 <= k < s.len() && s[k] == x;
                if k < names_listed(c, n - 1).len() {
                    assert(names_listed(c, n - 1)[k] == x);
                    assert(names_listed(c, n - 1).contains(x));
                } else if k == names_listed(c, n - 1).len() {
                    assert(c[n - 1].name@ == x);
                } else {
                    let j = k - p.len();
                    assert(v[j] == x);
                    assert(c[n - 1].relations[j]@ == x);
                }
            }
            if exists|i: int| 0 <= i < n && (#[trigger] c[i]).name@ == x {
                let i = choose|i: int| 0 <= i < n && (#[trigger] c[i]).name@ == x;
                if i < n - 1 {
                    assert(names_listed(c, n - 1).contains(x));
                    let q = names_listed(c, n - 1);
                    let k = choose|k: int| 0 <= k < q.len() && #[trigger] q[k] == x;
                    assert(s[k] == x);
                } else {
                    assert(s[names_listed(c, n - 1).len() as int] == x);
                }
            }
            if exists|i: int, j: int| 0 <= i < n && 0 <= j < c[i].relations.len() && (#[trigger] c[i].relations[j])@ == x {
                let (i, j) = choose|i: int, j: int| 0 <= i < n && 0 <= j < c[i].relations.len() && (#[trigger] c[i].relations[j])@ == x;
                if i < n - 1 {
                    assert(names_listed(c, n - 1).contains(x));
                    let q = names_listed(c, n - 1);
                    let k = choose|k: int| 0 <= k < q.len() && #[trigger] q[k] == x;
                    assert(s[k] == x);
                } else {
                    assert(s[p.len() + j] == v[j]);
                }
            }
        }
    }
}

/// The names in use are finitely many.
proof fn lemma_names_in_use_finite(c: Seq<ComponentHandle>)
    ensures
        names_in_use(c).finite(),
{
    lemma_names_listed(c, c.len() as int);
    assert(names_in_use(c) =~= names_listed(c, c.len() as int).to_set());
    vstd::seq_lib::seq_to_set_is_finite(names_listed(c, c.len() as int));
}

/// A name in use and not yet indexed leaves room for one more node.
proof fn lemma_room_for_name(c: Seq<ComponentHandle>, dom: Set<Seq<char>>, x: Seq<char>)
    requires
        names_in_use(c).finite(),
        names_in_use(c).len() < 65535,
        dom.finite(),
        forall|y: Seq<char>| #[trigger] dom.contains(y) ==> hosted(c, y) || referenced(c, y),
        hosted(c, x) || referenced(c, x),
    ensures
        !dom.contains(x) ==> dom.len() + 1 < 65535,
{
    if !dom.contains(x) {
        assert(dom.insert(x).subset_of(names_in_use(c)));
        vstd::set_lib::lemma_len_subset(dom.insert(x), names_in_use(c));
    }
}

/// The number of relations of the first `n` components.
pub open spec fn relation_count(c: Seq<ComponentHandle>, n: int) -> nat
    decreases n,
{
    if n <= 0 {
        0
    } else {
        relation_count(c, n - 1) + c[n - 1].relations@.len()
    }
}

/// Whether the handle lists the name among its peers.
pub open spec fn lists_peer(h: ComponentHandle, name: Seq<char>) -> bool {
    exists|j: int| 0 <= j < h.decl.peers.len() && (#[trigger] h.decl.peers[j])@ == name
}

/// Peer `j` of component `i` is registered and does not list `i` back.
pub open spec fn is_peer_mismatch(c: Seq<ComponentHandle>, i: int, j: int) -> bool {
    &&& 0 <= i < c.len()
    &&& 0 <= j < c[i].decl.peers.len()
    &&& exists|k: int| 0 <= k < c.len() && (#[trigger] c[k]).name@ == c[i].decl.peers[j]@
        && !lists_peer(c[k], c[i].name@)
}

/// Whether some peer relation is not mutual.
pub open spec fn has_peer_mismatch(c: Seq<ComponentHandle>) -> bool {
    exists|i: int, j: int| is_peer_mismatch(c, i, j)
}

/// Whether some relation names a component that is not registered.
pub open spec fn has_missing(c: Seq<ComponentHandle>) -> bool {
    exists|name: Seq<char>| referenced(c, name) && !hosted(c, name)
}

/// Component `a` requires the different component `b`.
pub open spec fn requires_rel(c: Seq<ComponentHandle>, a: Seq<char>, b: Seq<char>) -> bool {
    &&& a != b
    &&& exists|i: int, j: int| 0 <= i < c.len() && 0 <= j < c[i].decl.requirements.len()
        && (#[trigger] c[i].name)@ == a && (#[trigger] c[i].decl.requirements[j])@ == b
}

/// Why the relations of the registered components do not hold together.
#[derive(Debug)]
pub enum RouteError {
    /// `component` lists `peer` as a peer, and `peer` does not list it back.
    PeerMismatch { component: String, peer: String },
    /// These names are related to, and no component of that name is registered.
    Missing(Vec<String>),
    /// These components require each other in a cycle (or depend on one).
    Cycle(Vec<String>),
}

/// A channel a component is bound to, under the id of one of its relations.
#[derive(Debug)]
pub struct RouteBinding {
    /// The component that gets the channel.
    pub component: String,
    /// The id of the relation, in the component's relation list.
    pub relation_id: usize,
    /// The component at the other end of the channel.
    pub other: String,
}

/// The result of a successful check.
#[derive(Debug)]
pub struct RoutePlan {
    /// Every component name, each required component before the components requiring it.
    pub invocation_order: Vec<String>,
    /// A sender to each notified component that accepts notifications.
    pub notify_channels: Vec<RouteBinding>,
    /// A two-way channel to each peer, one end for each of the two.
    pub peer_channels: Vec<RouteBinding>,
    /// A subscription for each requirement, to the broadcast of the
    /// required component.
    pub requirement_channels: Vec<RouteBinding>,
}

/// A binding as plain values: component, relation id, other end.
pub open spec fn binding_view(b: RouteBinding) -> (Seq<char>, int, Seq<char>) {
    (b.component@, b.relation_id as int, b.other@)
}

/// Whether one of the bindings is the triple.
pub open spec fn listed(b: Seq<RouteBinding>, t: (Seq<char>, int, Seq<char>)) -> bool {
    exists|k: int| 0 <= k < b.len() && binding_view(#[trigger] b[k]) == t
}

/// Whether a registered component of that name accepts notifications.
pub open spec fn accepts_notifications(c: Seq<ComponentHandle>, name: Seq<char>) -> bool {
    exists|k: int| 0 <= k < c.len() && (#[trigger] c[k]).name@ == name && c[k].decl.accept_notifications
}

/// Notified component `j` of component `i` accepts notifications, is
/// another component, and `t` is the binding for it.
pub open spec fn notify_binding_at(c: Seq<ComponentHandle>, i: int, j: int, t: (Seq<char>, int, Seq<char>)) -> bool {
    &&& 0 <= i < c.len()
    &&& 0 <= j < c[i].decl.notify.len()
    &&& c[i].decl.notify[j]@ != c[i].name@
    &&& accepts_notifications(c, c[i].decl.notify[j]@)
    &&& t == (c[i].name@, c[i].decl.peers.len() + j, c[i].decl.notify[j]@)
}

/// `t` is the binding for peer `j` of component `i`.
pub open spec fn peer_binding_at(c: Seq<ComponentHandle>, i: int, j: int, t: (Seq<char>, int, Seq<char>)) -> bool {
    &&& 0 <= i < c.len()
    &&& 0 <= j < c[i].decl.peers.len()
    &&& t == (c[i].name@, j, c[i].decl.peers[j]@)
}

/// Requirement `j` of component `i` is another component, and `t` is the
/// binding for it: a subscription to the broadcast of the required
/// component, whose values the component eats at each tick.
pub open spec fn requirement_binding_at(c: Seq<ComponentHandle>, i: int, j: int, t: (Seq<char>, int, Seq<char>)) -> bool {
    &&& 0 <= i < c.len()
    &&& 0 <= j < c[i].decl.requirements.len()
    &&& c[i].decl.requirements[j]@ != c[i].name@
    &&& t == (c[i].name@, c[i].decl.peers.len() + c[i].decl.notify.len() + j, c[i].decl.requirements[j]@)
}

/// Whether the triple is the binding of a notified component.
pub open spec fn is_notify_binding(c: Seq<ComponentHandle>, t: (Seq<char>, int, Seq<char>)) -> bool {
    exists|i: int, j: int| notify_binding_at(c, i, j, t)
}

/// Whether the triple is the binding of a peer.
pub open spec fn is_peer_binding(c: Seq<ComponentHandle>, t: (Seq<char>, int, Seq<char>)) -> bool {
    exists|i: int, j: int| peer_binding_at(c, i, j, t)
}

/// Whether the triple is the binding of a requirement.
pub open spec fn is_requirement_binding(c: Seq<ComponentHandle>, t: (Seq<char>, int, Seq<char>)) -> bool {
    exists|i: int, j: int| requirement_binding_at(c, i, j, t)
}

/// The channels the route plan binds, by kind: exactly the bindings of the
/// components' relations.
pub open spec fn channels_planned(c: Seq<ComponentHandle>, p: RoutePlan) -> bool {
    &&& forall|t: (Seq<char>, int, Seq<char>)| #![trigger is_notify_binding(c, t)] #![trigger listed(p.notify_channels@, t)]
        is_notify_binding(c, t) <==> listed(p.notify_channels@, t)
    &&& forall|t: (Seq<char>, int, Seq<char>)| #![trigger is_peer_binding(c, t)] #![trigger listed(p.peer_channels@, t)]
        is_peer_binding(c, t) <==> listed(p.peer_channels@, t)
    &&& forall|t: (Seq<char>, int, Seq<char>)| #![trigger is_requirement_binding(c, t)] #![trigger listed(p.requirement_channels@, t)]
        is_requirement_binding(c, t) <==> listed(p.requirement_channels@, t)
}

/// Whether no name occurs twice in the list.
pub fn has_unique_elements(items: &Vec<String>) -> (r: bool)
    ensures
        r == distinct_names(views(items@)),
{
    let n = items.len();
    let mut i: usize = 0;
    while i < n
        invariant
            n == items.len(),
            0 <= i <= n,
            forall|a: int, b: int| 0 <= a < b < n && a < i ==> items[a]@ != items[b]@,
        decreases n - i,
    {
        let mut j: usize = i + 1;
        while j < n
            invariant
                n == items.len(),
                i < n,
                i + 1 <= j <= n,
                forall|b: int| i < b < j ==> items[i as int]@ != items[b]@,
            decreases n - j,
        {
            if items[i] == items[j] {
                proof {
                    assert(views(items@)[i as int] == views(items@)[j as int]);
                }
                return false;
            }
            j = j + 1;
        }
        i = i + 1;
    }
    true
}

/// The registered components, in registration order, no name twice.
pub struct ComponentManager {
    known_components: Vec<ComponentHandle>,
}

/// Registered components have distinct names and well-formed handles.
pub open spec fn components_wf(c: Seq<ComponentHandle>) -> bool {
    &&& forall|i: int, j: int| 0 <= i < j < c.len() ==> c[i].name@ != c[j].name@
    &&& forall|i: int| 0 <= i < c.len() ==> handle_wf(#[trigger] c[i])
}

/// Position of the component with that name, if registered.
pub open spec fn position_of(c: Seq<ComponentHandle>, name: Seq<char>) -> int {
    if hosted(c, name) {
        choose|i: int| 0 <= i < c.len() && (#[trigger] c[i]).name@ == name
    } else {
        -1
    }
}

/// The handle stands for the named component with that declaration.
pub open spec fn handle_is(h: ComponentHandle, name: Seq<char>, d: ComponentDecl) -> bool {
    &&& h.name@ == name
    &&& h.decl == d
    &&& handle_wf(h)
}

/// The error text of a registration with a repeated relation name.
pub open spec fn duplicate_message(name: Seq<char>) -> Seq<char> {
    "Service "@ + name + " has duplicate elements. Each name can only appear at one place"@
}

impl ComponentManager {
    /// The registered components.
    pub closed spec fn components(self) -> Seq<ComponentHandle> {
        self.known_components@
    }

    pub closed spec fn wf(self) -> bool {
        components_wf(self.known_components@)
    }

    /// A manager with no component.
    pub fn new() -> (m: Self)
        ensures
            m.components().len() == 0,
            m.wf(),
    {
        ComponentManager { known_components: Vec::new() }
    }

    /// Registers a component under a name. Each relation gets as id its
    /// position among peers, then notified components, then requirements.
    /// A name may appear only once among them; registering a name again
    /// replaces the earlier component of that name.
    pub fn register(&mut self, component_name: &str, component: ComponentDecl) -> (r: Result<(), String>)
        requires
            old(self).wf(),
        ensures
            final(self).wf(),
            r is Ok <==> distinct_names(relation_names(component)),
            r matches Err(msg) ==> msg@ == duplicate_message(component_name@)
                && final(self).components() == old(self).components(),
            r is Ok && hosted(old(self).components(), component_name@) ==> {
                let i = position_of(old(self).components(), component_name@);
                &&& final(self).components().len() == old(self).components().len()
                &&& handle_is(final(self).components()[i], component_name@, component)
                &&& forall|k: int| 0 <= k < old(self).components().len() && k != i
                    ==> final(self).components()[k] == old(self).components()[k]
            },
            r is Ok && !hosted(old(self).components(), component_name@) ==> {
                &&& final(self).components().len() == old(self).components().len() + 1
                &&& handle_is(final(self).components().last(), component_name@, component)
                &&& forall|k: int| 0 <= k < old(self).components().len()
                    ==> final(self).components()[k] == old(self).components()[k]
            },
    {
        let mut relations: Vec<String> = Vec::new();
        let mut k: usize = 0;
        while k < component.peers.len()
            invariant
                0 <= k <= component.peers.len(),
                views(relations@) == views(component.peers@).take(k as int),
            decreases component.peers.len() - k,
        {
            let ghost old_rel = relations@;
            let x = component.peers[k].clone();
            relations.push(x);
            proof {
                assert(relations@ == old_rel.push(x));
                assert(views(relations@) =~= views(old_rel).push(x@));
                assert(views(component.peers@).take(k + 1) =~= views(component.peers@).take(k as int).push(x@));
                assert(views(relations@) =~= views(component.peers@).take(k + 1));
            }
            k = k + 1;
        }
        let mut k: usize = 0;
        while k < component.notify.len()
            invariant
                0 <= k <= component.notify.len(),
                views(relations@) == views(component.peers@) + views(component.notify@).take(k as int),
            decreases component.notify.len() - k,
        {
            let ghost old_rel = relations@;
            let x = component.notify[k].clone();
            relations.push(x);
            proof {
                assert(relations@ == old_rel.push(x));
                assert(views(relations@) =~= views(old_rel).push(x@));
                assert(views(component.notify@).take(k + 1) =~= views(component.notify@).take(k as int).push(x@));
                assert(views(relations@) =~= views(component.peers@) + views(component.notify@).take(k + 1));
            }
            k = k + 1;
        }
        let mut k: usize = 0;
        while k < component.requirements.len()
            invariant
                0 <= k <= component.requirements.len(),
                views(relations@) == views(component.peers@) + views(component.notify@)
                    + views(component.requirements@).take(k as int),
            decreases component.requirements.len() - k,
        {
            let ghost old_rel = relations@;
            let x = component.requirements[k].clone();
            relations.push(x);
            proof {
                assert(relations@ == old_rel.push(x));
                assert(views(relations@) =~= views(old_rel).push(x@));
                assert(views(component.requirements@).take(k + 1) =~= views(component.requirements@).take(k as int).push(x@));
                assert(views(relations@) =~= views(component.peers@) + views(component.notify@)
                    + views(component.requirements@).take(k + 1));
            }
            k = k + 1;
        }
        proof {
            assert(views(component.peers@).take(component.peers.len() as int) =~= views(component.peers@));
            assert(views(component.notify@).take(component.notify.len() as int) =~= views(component.notify@));
            assert(views(component.requirements@).take(component.requirements.len() as int)
                =~= views(component.requirements@));
            assert(views(relations@) == relation_names(component));
        }
        if !has_unique_elements(&relations) {
            let mut msg = String::new();
            msg.append("Service ");
            msg.append(component_name);
            msg.append(" has duplicate elements. Each name can only appear at one place");
            proof {
                reveal_strlit("Service ");
                reveal_strlit(" has duplicate elements. Each name can only appear at one place");
                assert(msg@ =~= duplicate_message(component_name@));
            }
            return Err(msg);
        }
        let name = component_name.to_owned();
        let ghost decl = component;
        let handle = ComponentHandle { name, decl: component, relations };
        assert(handle.name@ == component_name@);
        assert(handle_is(handle, component_name@, decl));
        let n = self.known_components.len();
        let mut i: usize = 0;
        while i < n
            invariant
                n == self.known_components.len(),
                0 <= i <= n,
                self.known_components@ == old(self).known_components@,
                components_wf(self.known_components@),
                handle.name@ == component_name@,
                handle_is(handle, component_name@, decl),
                decl == component,
                distinct_names(relation_names(decl)),
                forall|k: int| 0 <= k < i ==> self.known_components[k].name@ != component_name@,
            decreases n - i,
        {
            let same = self.known_components[i].name.eq(&handle.name);
            assert(same == (self.known_components[i as int].name@ == handle.name@));
            if same {
                proof {
                    let c = self.known_components@;
                    assert(c[i as int].name@ == component_name@);
                    assert(hosted(c, component_name@));
                    let p = position_of(c, component_name@);
                    assert(c[p].name@ == component_name@);
                    assert(p == i as int);
                }
                self.known_components.set(i, handle);
                proof {
                    let c = self.known_components@;
                    assert forall|a: int, b: int| 0 <= a < b < c.len() implies c[a].name@ != c[b].name@ by {
                        if a != i && b != i {
                            assert(old(self).known_components@[a] == c[a]);
                            assert(old(self).known_components@[b] == c[b]);
                        } else if a == i {
                            assert(old(self).known_components@[b] == c[b]);
                            assert(old(self).known_components@[i as int].name@ == component_name@);
                        } else {
                            assert(old(self).known_components@[a] == c[a]);
                            assert(old(self).known_components@[i as int].name@ == component_name@);
                        }
                    }
                    assert forall|a: int| 0 <= a < c.len() implies handle_wf(#[trigger] c[a]) by {
                        if a != i {
                            assert(old(self).known_components@[a] == c[a]);
                        }
                    }
                }
                return Ok(());
            } else {
                assert(self.known_components[i as int].name@ != component_name@);
            }
            i = i + 1;
        }
        proof {
            if hosted(old(self).components(), component_name@) {
                let p = choose|p: int| 0 <= p < n && (#[trigger] old(self).known_components@[p]).name@ == component_name@;
                assert(self.known_components[p].name@ != component_name@);
            }
        }
        self.known_components.push(handle);
        proof {
            let c = self.known_components@;
            assert forall|a: int, b: int| 0 <= a < b < c.len() implies c[a].name@ != c[b].name@ by {
                if b == n {
                    assert(c[a] == old(self).known_components@[a]);
                } else {
                    assert(c[a] == old(self).known_components@[a]);
                    assert(c[b] == old(self).known_components@[b]);
                }
            }
            assert forall|a: int| 0 <= a < c.len() implies handle_wf(#[trigger] c[a]) by {
                if a < n {
                    assert(c[a] == old(self).known_components@[a]);
                }
            }
        }
        Ok(())
    }
}

impl Default for ComponentManager {
    /// A manager with no component.
    fn default() -> (m: Self)
        ensures
            m.components().len() == 0,
            m.wf(),
    {
        ComponentManager::new()
    }
}

/// Edge weight of a requirement.
pub const REQUIRES: u32 = 0;
/// Edge weight of a peer relation.
pub const PEER: u32 = 1;
/// Edge weight of a notification.
pub const NOTIFY: u32 = 2;

/// The name index and the graph nodes are inverse to each other.
pub open spec fn index_matches(g: DepGraph, m: NameIndex) -> bool {
    &&& forall|x: u16| #[trigger] graph_nodes(g).dom().contains(x)
        ==> name_index_pairs(m).dom().contains(graph_nodes(g)[x]) && name_index_pairs(m)[graph_nodes(g)[x]] == x
    &&& forall|n: Seq<char>| #[trigger] name_index_pairs(m).dom().contains(n)
        ==> graph_nodes(g).dom().contains(name_index_pairs(m)[n]) && graph_nodes(g)[name_index_pairs(m)[n]] == n
}

/// Relation `j` of component `i` comes before position (`i0`, `j0`).
pub open spec fn relation_before(i: int, j: int, i0: int, j0: int) -> bool {
    i < i0 || (i == i0 && j < j0)
}

/// Whether a relation before position (`i0`, `j0`) names `n`.
pub open spec fn referenced_before(c: Seq<ComponentHandle>, i0: int, j0: int, n: Seq<char>) -> bool {
    exists|i: int, j: int| 0 <= i < c.len() && 0 <= j < c[i].relations.len() && relation_before(i, j, i0, j0)
        && (#[trigger] c[i].relations[j])@ == n
}

proof fn lemma_relation_count_monotonic(c: Seq<ComponentHandle>, a: int, b: int)
    requires
        a <= b,
    ensures
        relation_count(c, a) <= relation_count(c, b),
    decreases b - a,
{
    if a < b {
        lemma_relation_count_monotonic(c, a, b - 1);
    }
}

/// Adds one node per registered component, then one per name that a relation
/// names and no node carries yet.
fn build_nodes(c: &Vec<ComponentHandle>) -> (res: (DepGraph, NameIndex))
    requires
        components_wf(c@),
        names_in_use(c@).len() < 65535,
    ensures
        graph_wf(res.0),
        name_index_wf(res.1),
        index_matches(res.0, res.1),
        graph_edges(res.0).len() == 0,
        forall|n: Seq<char>| #[trigger] name_index_pairs(res.1).dom().contains(n)
            <==> hosted(c@, n) || referenced(c@, n),
{
    proof {
        lemma_names_in_use_finite(c@);
    }
    let mut g = graph_new();
    let mut m = name_index_new();
    let n = c.len();
    let mut i: usize = 0;
    while i < n
        invariant
            n == c.len(),
            0 <= i <= n,
            components_wf(c@),
            graph_wf(g),
            name_index_wf(m),
            index_matches(g, m),
            graph_edges(g).len() == 0,
            graph_nodes(g).len() == name_index_pairs(m).dom().len(),
            names_in_use(c@).finite(),
            names_in_use(c@).len() < 65535,
            forall|x: Seq<char>| #[trigger] name_index_pairs(m).dom().contains(x)
                <==> exists|k: int| 0 <= k < i && (#[trigger] c[k]).name@ == x,
        decreases n - i,
    {
        let name = c[i].name.clone();
        proof {
            if name_index_pairs(m).dom().contains(name@) {
                let k = choose|k: int| 0 <= k < i && (#[trigger] c[k]).name@ == name@;
                assert(c[k].name@ != c[i as int].name@);
            }
            assert(hosted(c@, name@));
            lemma_room_for_name(c@, name_index_pairs(m).dom(), name@);
        }
        let ghost old_g = g;
        let ghost old_m = m;
        let idx = graph_add_node(&mut g, name.clone());
        name_index_insert(&mut m, name, idx);
        proof {
            assert(!name_index_pairs(old_m).values().contains(idx)) by {
                if name_index_pairs(old_m).values().contains(idx) {
                    let k = choose|k: Seq<char>| name_index_pairs(old_m).dom().contains(k) && name_index_pairs(old_m)[k] == idx;
                    assert(graph_nodes(old_g).dom().contains(idx));
                }
            }
            assert(name_index_pairs(old_m).filter_keys(
                |k: Seq<char>| k != name@ && name_index_pairs(old_m)[k] != idx) =~= name_index_pairs(old_m));
            assert(name_index_pairs(m) == name_index_pairs(old_m).insert(name@, idx));
            assert forall|x: Seq<char>| #[trigger] name_index_pairs(m).dom().contains(x)
                <==> exists|k: int| 0 <= k < i + 1 && (#[trigger] c[k]).name@ == x by {
                if x == name@ {
                    assert(c[i as int].name@ == x);
                }
                if exists|k: int| 0 <= k < i + 1 && (#[trigger] c[k]).name@ == x {
                    let k = choose|k: int| 0 <= k < i + 1 && (#[trigger] c[k]).name@ == x;
                    if k < i {
                        assert(name_index_pairs(old_m).dom().contains(x));
                    }
                }
            }
            assert(graph_nodes(g).dom() =~= graph_nodes(old_g).dom().insert(idx));
        }
        i = i + 1;
    }
    let mut i: usize = 0;
    while i < n
        invariant
            n == c.len(),
            0 <= i <= n,
            components_wf(c@),
            graph_wf(g),
            name_index_wf(m),
            index_matches(g, m),
            graph_edges(g).len() == 0,
            graph_nodes(g).len() == name_index_pairs(m).dom().len(),
            names_in_use(c@).finite(),
            names_in_use(c@).len() < 65535,
            forall|x: Seq<char>| #[trigger] name_index_pairs(m).dom().contains(x)
                <==> hosted(c@, x) || referenced_before(c@, i as int, 0, x),
        decreases n - i,
    {
        let nrel = c[i].relations.len();
        let mut j: usize = 0;
        while j < nrel
            invariant
                n == c.len(),
                0 <= i < n,
                nrel == c[i as int].relations.len(),
                0 <= j <= nrel,
                components_wf(c@),
                graph_wf(g),
                name_index_wf(m),
                index_matches(g, m),
                graph_edges(g).len() == 0,
                graph_nodes(g).len() == name_index_pairs(m).dom().len(),
                names_in_use(c@).finite(),
                names_in_use(c@).len() < 65535,
                forall|x: Seq<char>| #[trigger] name_index_pairs(m).dom().contains(x)
                    <==> hosted(c@, x) || referenced_before(c@, i as int, j as int, x),
            decreases nrel - j,
        {
            let r = c[i].relations[j].clone();
            proof {
                assert(referenced(c@, r@));
                lemma_room_for_name(c@, name_index_pairs(m).dom(), r@);
            }
            if !name_index_contains_name(&m, &r) {
                let ghost old_g = g;
                let ghost old_m = m;
                let idx = graph_add_node(&mut g, r.clone());
                name_index_insert(&mut m, r, idx);
                proof {
                    assert(!name_index_pairs(old_m).values().contains(idx)) by {
                        if name_index_pairs(old_m).values().contains(idx) {
                            let k = choose|k: Seq<char>| name_index_pairs(old_m).dom().contains(k) && name_index_pairs(old_m)[k] == idx;
                            assert(graph_nodes(old_g).dom().contains(idx));
                        }
                    }
                    assert(name_index_pairs(old_m).filter_keys(
                        |k: Seq<char>| k != r@ && name_index_pairs(old_m)[k] != idx) =~= name_index_pairs(old_m));
                    assert(name_index_pairs(m) == name_index_pairs(old_m).insert(r@, idx));
                    assert(graph_nodes(g).dom() =~= graph_nodes(old_g).dom().insert(idx));
                }
            }
            proof {
                assert forall|x: Seq<char>| #[trigger] name_index_pairs(m).dom().contains(x)
                    <==> hosted(c@, x) || referenced_before(c@, i as int, j + 1, x) by {
                    if x == r@ {
                        assert(c[i as int].relations[j as int]@ == x);
                        assert(referenced_before(c@, i as int, j + 1, x));
                    }
                    if referenced_before(c@, i as int, j + 1, x) {
                        let (a, b) = choose|a: int, b: int| 0 <= a < c.len() && 0 <= b < c[a].relations.len()
                            && relation_before(a, b, i as int, j + 1) && (#[trigger] c[a].relations[b])@ == x;
                        if relation_before(a, b, i as int, j as int) {
                            assert(referenced_before(c@, i as int, j as int, x));
                        } else {
                            assert(a == i && b == j);
                        }
                    }
                }
            }
            j = j + 1;
        }
        proof {
            assert forall|x: Seq<char>| referenced_before(c@, i as int, nrel as int, x)
                <==> referenced_before(c@, i + 1, 0, x) by {
                if referenced_before(c@, i + 1, 0, x) {
                    let (a, b) = choose|a: int, b: int| 0 <= a < c.len() && 0 <= b < c[a].relations.len()
                        && relation_before(a, b, i + 1, 0) && (#[trigger] c[a].relations[b])@ == x;
                    assert(relation_before(a, b, i as int, nrel as int));
                }
                if referenced_before(c@, i as int, nrel as int, x) {
                    let (a, b) = choose|a: int, b: int| 0 <= a < c.len() && 0 <= b < c[a].relations.len()
                        && relation_before(a, b, i as int, nrel as int) && (#[trigger] c[a].relations[b])@ == x;
                    assert(relation_before(a, b, i + 1, 0));
                }
            }
        }
        i = i + 1;
    }
    proof {
        assert forall|x: Seq<char>| referenced_before(c@, n as int, 0, x) <==> referenced(c@, x) by {
            if referenced(c@, x) {
                let (a, b) = choose|a: int, b: int| 0 <= a < c.len() && 0 <= b < c[a].relations.len()
                    && (#[trigger] c[a].relations[b])@ == x;
                assert(relation_before(a, b, n as int, 0));
            }
        }
    }
    (g, m)
}

/// The first non-mutual peer relation, in registration order and then in
/// the order of the peer list, is (`i`, `j`).
pub open spec fn is_first_peer_mismatch(c: Seq<ComponentHandle>, i: int, j: int) -> bool {
    &&& is_peer_mismatch(c, i, j)
    &&& forall|a: int, b: int| #![trigger is_peer_mismatch(c, a, b)]
        relation_before(a, b, i, j) ==> !is_peer_mismatch(c, a, b)
}

/// Every requirement edge of the graph joins a component to a different
/// component it requires.
pub open spec fn requirement_edges_sound(c: Seq<ComponentHandle>, g: DepGraph) -> bool {
    forall|e: (u16, u16, u32)| #[trigger] graph_edges(g).contains(e) && e.2 == REQUIRES
        ==> requires_rel(c, graph_nodes(g)[e.0], graph_nodes(g)[e.1])
}

/// Every requirement of a component on a different component is an edge.
pub open spec fn requirement_edges_complete(c: Seq<ComponentHandle>, g: DepGraph, m: NameIndex) -> bool {
    forall|a: Seq<char>, b: Seq<char>| #[trigger] requires_rel(c, a, b)
        ==> graph_edges(g).contains((name_index_pairs(m)[a], name_index_pairs(m)[b], REQUIRES))
}

/// Position of the registered component with the given name, if any.
fn find_component(c: &Vec<ComponentHandle>, name: &String) -> (r: Option<usize>)
    ensures
        match r {
            Some(k) => k < c.len() && c[k as int].name@ == name@,
            None => !hosted(c@, name@),
        },
{
    let mut k: usize = 0;
    while k < c.len()
        invariant
            0 <= k <= c.len(),
            forall|a: int| 0 <= a < k ==> c[a].name@ != name@,
        decreases c.len() - k,
    {
        if c[k].name.eq(name) {
            return Some(k);
        }
        k = k + 1;
    }
    None
}

/// Whether the handle lists the name among its peers.
fn handle_lists_peer(h: &ComponentHandle, name: &String) -> (r: bool)
    ensures
        r == lists_peer(*h, name@),
{
    let mut k: usize = 0;
    while k < h.decl.peers.len()
        invariant
            0 <= k <= h.decl.peers.len(),
            forall|a: int| 0 <= a < k ==> h.decl.peers[a]@ != name@,
        decreases h.decl.peers.len() - k,
    {
        if h.decl.peers[k].eq(name) {
            return true;
        }
        k = k + 1;
    }
    false
}

/// Whether the node already has a peer edge to the other node.
fn has_peer_edge(g: &DepGraph, a: u16, b: u16) -> (r: bool)
    requires
        graph_wf(*g),
        graph_nodes(*g).dom().contains(a),
    ensures
        r == graph_edges(*g).contains((a, b, PEER)),
{
    let outs = graph_out_edges(g, a);
    let mut k: usize = 0;
    while k < outs.len()
        invariant
            0 <= k <= outs.len(),
            forall|j: int| 0 <= j < k ==> outs@[j] != (b, PEER),
            forall|i: int| 0 <= i < outs.len() ==> graph_edges(*g).contains((a, #[trigger] outs@[i].0, outs@[i].1)),
        decreases outs.len() - k,
    {
        if outs[k].0 == b && outs[k].1 == PEER {
            proof {
                assert(graph_edges(*g).contains((a, outs@[k as int].0, outs@[k as int].1)));
            }
            return true;
        }
        k = k + 1;
    }
    proof {
        if graph_edges(*g).contains((a, b, PEER)) {
            assert(outs@.contains((b, PEER)));
        }
    }
    false
}

/// The relation list of a handle is its peers, then notified, then required.
proof fn lemma_relations_layout(h: ComponentHandle)
    requires
        handle_wf(h),
    ensures
        h.relations.len() == h.decl.peers.len() + h.decl.notify.len() + h.decl.requirements.len(),
        forall|j: int| 0 <= j < h.decl.peers.len() ==> (#[trigger] h.decl.peers[j])@ == h.relations[j]@,
        forall|j: int| 0 <= j < h.decl.notify.len()
            ==> (#[trigger] h.decl.notify[j])@ == h.relations[h.decl.peers.len() + j]@,
        forall|j: int| 0 <= j < h.decl.requirements.len()
            ==> (#[trigger] h.decl.requirements[j])@ == h.relations[h.decl.peers.len() + h.decl.notify.len() + j]@,
{
    assert(views(h.relations@).len() == h.relations.len());
    assert forall|j: int| 0 <= j < h.decl.peers.len() implies (#[trigger] h.decl.peers[j])@ == h.relations[j]@ by {
        assert(views(h.relations@)[j] == relation_names(h.decl)[j]);
    }
    assert forall|j: int| 0 <= j < h.decl.notify.len()
        implies (#[trigger] h.decl.notify[j])@ == h.relations[h.decl.peers.len() + j]@ by {
        assert(views(h.relations@)[h.decl.peers.len() + j] == relation_names(h.decl)[h.decl.peers.len() + j]);
    }
    assert forall|j: int| 0 <= j < h.decl.requirements.len()
        implies (#[trigger] h.decl.requirements[j])@ == h.relations[h.decl.peers.len() + h.decl.notify.len() + j]@ by {
        let p = h.decl.peers.len() + h.decl.notify.len() + j;
        assert(views(h.relations@)[p] == relation_names(h.decl)[p]);
    }
}

/// Adds the relation edges: peer edges both ways between mutual peers,
/// requirement and notification edges to other components. Stops at the
/// first peer relation that is not mutual.
fn add_relation_edges(c: &Vec<ComponentHandle>, g: &mut DepGraph, m: &NameIndex) -> (r: Result<(), RouteError>)
    requires
        components_wf(c@),
        graph_wf(*old(g)),
        name_index_wf(*m),
        index_matches(*old(g), *m),
        graph_edges(*old(g)).len() == 0,
        forall|n: Seq<char>| #[trigger] name_index_pairs(*m).dom().contains(n)
            <==> hosted(c@, n) || referenced(c@, n),
        2 * relation_count(c@, c.len() as int) < 65535,
    ensures
        graph_wf(*final(g)),
        graph_nodes(*final(g)) == graph_nodes(*old(g)),
        r is Ok <==> !has_peer_mismatch(c@),
        r matches Err(e) ==> (e matches RouteError::PeerMismatch { component, peer }
            && exists|i: int, j: int| is_first_peer_mismatch(c@, i, j)
                && c@[i].name@ == component@ && c@[i].decl.peers[j]@ == peer@),
        r is Ok ==> requirement_edges_sound(c@, *final(g)),
        r is Ok ==> requirement_edges_complete(c@, *final(g), *m),
{
    let n = c.len();
    let ghost nodes0 = graph_nodes(*g);
    let mut i: usize = 0;
    while i < n
        invariant
            n == c.len(),
            0 <= i <= n,
            components_wf(c@),
            graph_wf(*g),
            name_index_wf(*m),
            graph_nodes(*g) == nodes0,
            nodes0 == graph_nodes(*old(g)),
            index_matches(*g, *m),
            forall|x: Seq<char>| #[trigger] name_index_pairs(*m).dom().contains(x)
                <==> hosted(c@, x) || referenced(c@, x),
            2 * relation_count(c@, n as int) < 65535,
            graph_edges(*g).len() <= 2 * relation_count(c@, i as int),
            forall|a: int, b: int| #![trigger is_peer_mismatch(c@, a, b)] a < i ==> !is_peer_mismatch(c@, a, b),
            requirement_edges_sound(c@, *g),
            forall|a: int, b: int| 0 <= a < i && 0 <= b < c[a].decl.requirements.len()
                && c[a].name@ != (#[trigger] c[a].decl.requirements[b])@
                ==> graph_edges(*g).contains((name_index_pairs(*m)[c[a].name@],
                    name_index_pairs(*m)[c[a].decl.requirements[b]@], REQUIRES)),
        decreases n - i,
    {
        let h = &c[i];
        proof {
            lemma_relations_layout(*h);
            lemma_relation_count_monotonic(c@, i + 1, n as int);
            assert(relation_count(c@, i + 1) == relation_count(c@, i as int) + h.relations.len());
            assert(hosted(c@, h.name@)) by {
                assert(c@[i as int].name@ == h.name@);
            }
        }
        let node_id = name_index_get_by_name(m, &h.name).unwrap();
        let np = h.decl.peers.len();
        let nn = h.decl.notify.len();
        let nr = h.decl.requirements.len();
        let mut j: usize = 0;
        while j < np
            invariant
                n == c.len(),
                0 <= i < n,
                *h == c@[i as int],
                handle_wf(*h),
                np == h.decl.peers.len(),
                h.relations.len() == np + nn + nr,
                nn == h.decl.notify.len(),
                nr == h.decl.requirements.len(),
                forall|b: int| 0 <= b < np ==> (#[trigger] h.decl.peers[b])@ == h.relations[b]@,
                0 <= j <= np,
                components_wf(c@),
                graph_wf(*g),
                name_index_wf(*m),
                graph_nodes(*g) == nodes0,
                nodes0 == graph_nodes(*old(g)),
                index_matches(*g, *m),
                forall|x: Seq<char>| #[trigger] name_index_pairs(*m).dom().contains(x)
                    <==> hosted(c@, x) || referenced(c@, x),
                name_index_pairs(*m)[h.name@] == node_id,
                name_index_pairs(*m).dom().contains(h.name@),
                2 * relation_count(c@, n as int) < 65535,
                relation_count(c@, i + 1) <= relation_count(c@, n as int),
                relation_count(c@, i + 1) == relation_count(c@, i as int) + np + nn + nr,
                graph_edges(*g).len() <= 2 * (relation_count(c@, i as int) + j),
                forall|a: int, b: int| #![trigger is_peer_mismatch(c@, a, b)] relation_before(a, b, i as int, j as int)
                    ==> !is_peer_mismatch(c@, a, b),
                requirement_edges_sound(c@, *g),
                forall|a: int, b: int| 0 <= a < i && 0 <= b < c[a].decl.requirements.len()
                    && c[a].name@ != (#[trigger] c[a].decl.requirements[b])@
                    ==> graph_edges(*g).contains((name_index_pairs(*m)[c[a].name@],
                        name_index_pairs(*m)[c[a].decl.requirements[b]@], REQUIRES)),
            decreases np - j,
        {
            let peer_name = &h.decl.peers[j];
            match find_component(c, peer_name) {
                Some(k) => {
                    if !handle_lists_peer(&c[k], &h.name) {
                        proof {
                            assert(is_peer_mismatch(c@, i as int, j as int));
                            assert(is_first_peer_mismatch(c@, i as int, j as int));
                        }
                        return Err(RouteError::PeerMismatch { component: h.name.clone(), peer: peer_name.clone() });
                    }
                    proof {
                        assert(referenced(c@, peer_name@)) by {
                            assert(c@[i as int].relations[j as int]@ == peer_name@);
                        }
                        assert forall|kk: int| 0 <= kk < c.len() && (#[trigger] c@[kk]).name@ == peer_name@
                            implies lists_peer(c@[kk], h.name@) by {
                            assert(kk == k);
                        }
                    }
                    let peer_id = name_index_get_by_name(m, peer_name).unwrap();
                    if !has_peer_edge(g, node_id, peer_id) {
                        let ghost before = *g;
                        graph_add_edge(g, node_id, peer_id, PEER);
                        graph_add_edge(g, peer_id, node_id, PEER);
                        proof {
                            assert forall|e: (u16, u16, u32)| #[trigger] graph_edges(*g).contains(e) && e.2 == REQUIRES
                                implies requires_rel(c@, graph_nodes(*g)[e.0], graph_nodes(*g)[e.1]) by {
                                assert(graph_edges(before).contains(e));
                            }
                            assert forall|a: int, b: int| 0 <= a < i && 0 <= b < c[a].decl.requirements.len()
                                && c[a].name@ != (#[trigger] c[a].decl.requirements[b])@
                                implies graph_edges(*g).contains((name_index_pairs(*m)[c[a].name@],
                                    name_index_pairs(*m)[c[a].decl.requirements[b]@], REQUIRES)) by {
                                assert(graph_edges(before).contains((name_index_pairs(*m)[c[a].name@],
                                    name_index_pairs(*m)[c[a].decl.requirements[b]@], REQUIRES)));
                            }
                        }
                    }
                },
                None => {
                    proof {
                        assert(!is_peer_mismatch(c@, i as int, j as int));
                    }
                },
            }
            proof {
                assert(!is_peer_mismatch(c@, i as int, j as int));
            }
            j = j + 1;
        }
        let mut j: usize = 0;
        while j < nn
            invariant
                n == c.len(),
                0 <= i < n,
                *h == c@[i as int],
                handle_wf(*h),
                np == h.decl.peers.len(),
                nn == h.decl.notify.len(),
                nr == h.decl.requirements.len(),
                h.relations.len() == np + nn + nr,
                forall|b: int| 0 <= b < nn ==> (#[trigger] h.decl.notify[b])@ == h.relations[np + b]@,
                0 <= j <= nn,
                components_wf(c@),
                graph_wf(*g),
                name_index_wf(*m),
                graph_nodes(*g) == nodes0,
                nodes0 == graph_nodes(*old(g)),
                index_matches(*g, *m),
                forall|x: Seq<char>| #[trigger] name_index_pairs(*m).dom().contains(x)
                    <==> hosted(c@, x) || referenced(c@, x),
                name_index_pairs(*m)[h.name@] == node_id,
                name_index_pairs(*m).dom().contains(h.name@),
                2 * relation_count(c@, n as int) < 65535,
                relation_count(c@, i + 1) <= relation_count(c@, n as int),
                relation_count(c@, i + 1) == relation_count(c@, i as int) + np + nn + nr,
                graph_edges(*g).len() <= 2 * (relation_count(c@, i as int) + np + j),
                forall|a: int, b: int| #![trigger is_peer_mismatch(c@, a, b)] a <= i ==> !is_peer_mismatch(c@, a, b),
                requirement_edges_sound(c@, *g),
                forall|a: int, b: int| 0 <= a < i && 0 <= b < c[a].decl.requirements.len()
                    && c[a].name@ != (#[trigger] c[a].decl.requirements[b])@
                    ==> graph_edges(*g).contains((name_index_pairs(*m)[c[a].name@],
                        name_index_pairs(*m)[c[a].decl.requirements[b]@], REQUIRES)),
            decreases nn - j,
        {
            let target = &h.decl.notify[j];
            proof {
                assert(referenced(c@, target@)) by {
                    assert(c@[i as int].relations[np + j]@ == target@);
                }
            }
            let target_id = name_index_get_by_name(m, target).unwrap();
            if node_id != target_id {
                let ghost before = *g;
                graph_add_edge(g, node_id, target_id, NOTIFY);
                proof {
                    assert forall|e: (u16, u16, u32)| #[trigger] graph_edges(*g).contains(e) && e.2 == REQUIRES
                        implies requires_rel(c@, graph_nodes(*g)[e.0], graph_nodes(*g)[e.1]) by {
                        assert(graph_edges(before).contains(e));
                    }
                    assert forall|a: int, b: int| 0 <= a < i && 0 <= b < c[a].decl.requirements.len()
                        && c[a].name@ != (#[trigger] c[a].decl.requirements[b])@
                        implies graph_edges(*g).contains((name_index_pairs(*m)[c[a].name@],
                            name_index_pairs(*m)[c[a].decl.requirements[b]@], REQUIRES)) by {
                        assert(graph_edges(before).contains((name_index_pairs(*m)[c[a].name@],
                            name_index_pairs(*m)[c[a].decl.requirements[b]@], REQUIRES)));
                    }
                }
            }
            j = j + 1;
        }
        let mut j: usize = 0;
        while j < nr
            invariant
                n == c.len(),
                0 <= i < n,
                *h == c@[i as int],
                handle_wf(*h),
                np == h.decl.peers.len(),
                nn == h.decl.notify.len(),
                nr == h.decl.requirements.len(),
                h.relations.len() == np + nn + nr,
                forall|b: int| 0 <= b < nr ==> (#[trigger] h.decl.requirements[b])@ == h.relations[np + nn + b]@,
                0 <= j <= nr,
                components_wf(c@),
                graph_wf(*g),
                name_index_wf(*m),
                graph_nodes(*g) == nodes0,
                nodes0 == graph_nodes(*old(g)),
                index_matches(*g, *m),
                forall|x: Seq<char>| #[trigger] name_index_pairs(*m).dom().contains(x)
                    <==> hosted(c@, x) || referenced(c@, x),
                name_index_pairs(*m)[h.name@] == node_id,
                name_index_pairs(*m).dom().contains(h.name@),
                2 * relation_count(c@, n as int) < 65535,
                relation_count(c@, i + 1) <= relation_count(c@, n as int),
                relation_count(c@, i + 1) == relation_count(c@, i as int) + np + nn + nr,
                graph_edges(*g).len() <= 2 * (relation_count(c@, i as int) + np + nn + j),
                forall|a: int, b: int| #![trigger is_peer_mismatch(c@, a, b)] a <= i ==> !is_peer_mismatch(c@, a, b),
                requirement_edges_sound(c@, *g),
                forall|a: int, b: int| 0 <= a <= i && 0 <= b < c[a].decl.requirements.len() && (a < i || b < j)
                    && c[a].name@ != (#[trigger] c[a].decl.requirements[b])@
                    ==> graph_edges(*g).contains((name_index_pairs(*m)[c[a].name@],
                        name_index_pairs(*m)[c[a].decl.requirements[b]@], REQUIRES)),
            decreases nr - j,
        {
            let target = &h.decl.requirements[j];
            proof {
                assert(referenced(c@, target@)) by {
                    assert(c@[i as int].relations[np + nn + j]@ == target@);
                }
            }
            let target_id = name_index_get_by_name(m, target).unwrap();
            if node_id != target_id {
                let ghost before = *g;
                graph_add_edge(g, node_id, target_id, REQUIRES);
                proof {
                    assert(h.name@ != target@);
                    assert(requires_rel(c@, h.name@, target@)) by {
                        assert(c@[i as int].name@ == h.name@);
                        assert(c@[i as int].decl.requirements[j as int]@ == target@);
                    }
                    assert forall|e: (u16, u16, u32)| #[trigger] graph_edges(*g).contains(e) && e.2 == REQUIRES
                        implies requires_rel(c@, graph_nodes(*g)[e.0], graph_nodes(*g)[e.1]) by {
                        if e != (node_id, target_id, REQUIRES) {
                            assert(graph_edges(before).contains(e));
                        }
                    }
                    assert forall|a: int, b: int| 0 <= a <= i && 0 <= b < c[a].decl.requirements.len() && (a < i || b < j + 1)
                        && c[a].name@ != (#[trigger] c[a].decl.requirements[b])@
                        implies graph_edges(*g).contains((name_index_pairs(*m)[c[a].name@],
                            name_index_pairs(*m)[c[a].decl.requirements[b]@], REQUIRES)) by {
                        if a < i || b < j {
                            assert(graph_edges(before).contains((name_index_pairs(*m)[c[a].name@],
                                name_index_pairs(*m)[c[a].decl.requirements[b]@], REQUIRES)));
                        }
                    }
                }
            } else {
                proof {
                    assert(graph_nodes(*g)[node_id] == h.name@);
                    assert(graph_nodes(*g)[target_id] == target@);
                    assert(h.name@ == target@);
                    assert forall|a: int, b: int| 0 <= a <= i && 0 <= b < c[a].decl.requirements.len() && (a < i || b < j + 1)
                        && c[a].name@ != (#[trigger] c[a].decl.requirements[b])@
                        implies graph_edges(*g).contains((name_index_pairs(*m)[c[a].name@],
                            name_index_pairs(*m)[c[a].decl.requirements[b]@], REQUIRES)) by {
                        if a == i && b == j {
                            assert(c[a].name@ == h.name@);
                        }
                    }
                }
            }
            j = j + 1;
        }
        i = i + 1;
    }
    proof {
        assert forall|a: Seq<char>, b: Seq<char>| #[trigger] requires_rel(c@, a, b)
            implies graph_edges(*g).contains((name_index_pairs(*m)[a], name_index_pairs(*m)[b], REQUIRES)) by {
            let (x, y) = choose|x: int, y: int| 0 <= x < c.len() && 0 <= y < c[x].decl.requirements.len()
                && (#[trigger] c[x].name)@ == a && (#[trigger] c[x].decl.requirements[y])@ == b;
            assert(c[x].decl.requirements[y]@ == b);
        }
        assert(!has_peer_mismatch(c@));
    }
    Ok(())
}

/// A set of registered components in which each one requires another one of
/// the set.
#[verifier::opaque]
pub open spec fn requirement_closed(c: Seq<ComponentHandle>, s: Set<Seq<char>>) -> bool {
    forall|a: Seq<char>| #[trigger] s.contains(a) ==> hosted(c, a)
        && exists|b: Seq<char>| #[trigger] requires_rel(c, a, b) && s.contains(b)
}

/// What a member of a requirement-closed set is.
proof fn lemma_closed_member(c: Seq<ComponentHandle>, s: Set<Seq<char>>, a: Seq<char>)
    requires
        requirement_closed(c, s),
        s.contains(a),
    ensures
        hosted(c, a),
        exists|b: Seq<char>| #[trigger] requires_rel(c, a, b) && s.contains(b),
{
    reveal(requirement_closed);
}

/// The component sits on a cycle of requirements, or requires, directly or
/// not, a component that does.
pub open spec fn blocked_by_cycle(c: Seq<ComponentHandle>, a: Seq<char>) -> bool {
    exists|s: Set<Seq<char>>| requirement_closed(c, s) && #[trigger] s.contains(a)
}

/// Whether the requirements between the registered components form a cycle.
pub open spec fn has_requirement_cycle(c: Seq<ComponentHandle>) -> bool {
    exists|a: Seq<char>| blocked_by_cycle(c, a)
}

/// `order` lists every registered component once, each one after every
/// component it requires.
pub open spec fn is_invocation_order(c: Seq<ComponentHandle>, order: Seq<Seq<char>>) -> bool {
    &&& distinct_names(order)
    &&& forall|a: Seq<char>| hosted(c, a) <==> order.contains(a)
    &&& forall|i: int, j: int| 0 <= i < order.len() && 0 <= j < order.len()
        && #[trigger] requires_rel(c, order[i], order[j]) ==> j < i
}

/// The graph and the index as the route check builds them: one node per
/// name, all of them registered, and exactly the requirements as edges of
/// weight `REQUIRES`.
pub open spec fn routing_graph(c: Seq<ComponentHandle>, g: DepGraph, m: NameIndex) -> bool {
    &&& graph_wf(g)
    &&& name_index_wf(m)
    &&& index_matches(g, m)
    &&& forall|n: Seq<char>| #[trigger] name_index_pairs(m).dom().contains(n) <==> hosted(c, n)
    &&& requirement_edges_sound(c, g)
    &&& requirement_edges_complete(c, g, m)
}

/// The names carried by the given live nodes, in the same order.
fn node_names(g: &DepGraph, m: &NameIndex, idx: &Vec<u16>) -> (names: Vec<String>)
    requires
        index_matches(*g, *m),
        forall|k: int| 0 <= k < idx.len() ==> graph_nodes(*g).dom().contains(#[trigger] idx[k]),
    ensures
        names.len() == idx.len(),
        forall|k: int| 0 <= k < idx.len() ==> (#[trigger] names[k])@ == graph_nodes(*g)[idx[k]],
{
    let mut names: Vec<String> = Vec::new();
    let mut k: usize = 0;
    while k < idx.len()
        invariant
            index_matches(*g, *m),
            forall|q: int| 0 <= q < idx.len() ==> graph_nodes(*g).dom().contains(#[trigger] idx[q]),
            0 <= k <= idx.len(),
            names.len() == k,
            forall|q: int| 0 <= q < k ==> (#[trigger] names[q])@ == graph_nodes(*g)[idx[q]],
        decreases idx.len() - k,
    {
        let x = idx[k];
        match name_index_get_by_index(m, x) {
            Some(name) => {
                names.push(name);
            },
            None => {
                proof {
                    assert(graph_nodes(*g).dom().contains(x));
                    assert(name_index_pairs(*m).dom().contains(graph_nodes(*g)[x]));
                    assert(name_index_pairs(*m).values().contains(x));
                }
                names.push(String::new());
            },
        }
        k = k + 1;
    }
    names
}

/// The names of the nodes a peeling leaves are each blocked by a cycle.
proof fn lemma_left_nodes_blocked(
    c: Seq<ComponentHandle>,
    g: DepGraph,
    m: NameIndex,
    rest: DepGraph,
    order: Seq<u16>,
    sel: spec_fn(u32) -> bool,
)
    requires
        routing_graph(c, g, m),
        graph_wf(rest),
        forall|w: u32| #[trigger] sel(w) ==> w == REQUIRES,
        graph_nodes(rest) == graph_nodes(g).remove_keys(order.to_set()),
        graph_edges(rest) == edges_without(graph_edges(g), order.to_set()),
        forall|n: u16| #[trigger] graph_nodes(rest).dom().contains(n)
            ==> has_selected_out_edge(graph_edges(rest), n, sel),
    ensures
        forall|x: u16| #[trigger] graph_nodes(rest).dom().contains(x) ==> blocked_by_cycle(c, graph_nodes(g)[x]),
{
    let s = graph_nodes(rest).dom().map(|x: u16| graph_nodes(g)[x]);
    assert forall|a: Seq<char>| #[trigger] s.contains(a) implies hosted(c, a)
        && exists|b: Seq<char>| #[trigger] requires_rel(c, a, b) && s.contains(b) by {
        let x = choose|x: u16| graph_nodes(rest).dom().contains(x) && graph_nodes(g)[x] == a;
        assert(graph_nodes(g).dom().contains(x));
        assert(name_index_pairs(m).dom().contains(a));
        let (t, w) = choose|t: u16, w: u32| #[trigger] graph_edges(rest).contains((x, t, w)) && sel(w);
        assert(graph_edges(rest).contains((x, t, w)));
        assert(graph_edges(g).contains((x, t, w)));
        assert(requires_rel(c, graph_nodes(g)[x], graph_nodes(g)[t]));
        assert(graph_nodes(rest).dom().contains(t));
        assert(s.contains(graph_nodes(g)[t]));
    }
    assert(requirement_closed(c, s)) by {
        reveal(requirement_closed);
    }
    assert forall|x: u16| #[trigger] graph_nodes(rest).dom().contains(x) implies blocked_by_cycle(c, graph_nodes(g)[x]) by {
        assert(s.contains(graph_nodes(g)[x]));
    }
}

/// A component blocked by a cycle is never peeled: its node stays.
proof fn lemma_blocked_node_stays(
    c: Seq<ComponentHandle>,
    g: DepGraph,
    m: NameIndex,
    order: Seq<u16>,
    sel: spec_fn(u32) -> bool,
    a: Seq<char>,
)
    requires
        routing_graph(c, g, m),
        sel(REQUIRES),
        order == peel_order(graph_nodes(g).dom(), graph_edges(g), sel),
        blocked_by_cycle(c, a),
    ensures
        name_index_pairs(m).dom().contains(a),
        graph_nodes(g).dom().contains(name_index_pairs(m)[a]),
        !order.to_set().contains(name_index_pairs(m)[a]),
{
    let s = choose|s: Set<Seq<char>>| requirement_closed(c, s) && #[trigger] s.contains(a);
    let p = name_index_pairs(m);
    let t = s.map(|b: Seq<char>| p[b]);
    assert(closed_under_selected(graph_nodes(g).dom(), graph_edges(g), sel, t)) by {
        reveal(closed_under_selected);
        assert forall|x: u16| #[trigger] t.contains(x) implies graph_nodes(g).dom().contains(x)
            && exists|y: u16, w: u32| #[trigger] graph_edges(g).contains((x, y, w)) && t.contains(y) && sel(w) by {
            let b = choose|b: Seq<char>| s.contains(b) && p[b] == x;
            lemma_closed_member(c, s, b);
            assert(p.dom().contains(b));
            let d = choose|d: Seq<char>| #[trigger] requires_rel(c, b, d) && s.contains(d);
            assert(graph_edges(g).contains((p[b], p[d], REQUIRES)));
            assert(t.contains(p[d]));
        }
    }
    law_peel_order_spares_closed_sets(graph_nodes(g).dom(), graph_edges(g), sel, t);
    lemma_closed_member(c, s, a);
    assert(t.contains(p[a]));
    if order.to_set().contains(p[a]) {
        let i = choose|i: int| 0 <= i < order.len() && order[i] == p[a];
        assert(!t.contains(order[i]));
    }
}

/// When the peeling takes every node, the names in peeling order are an
/// invocation order.
proof fn lemma_full_peel_is_invocation_order(
    c: Seq<ComponentHandle>,
    g: DepGraph,
    m: NameIndex,
    order: Seq<u16>,
    sel: spec_fn(u32) -> bool,
    names: Seq<Seq<char>>,
)
    requires
        routing_graph(c, g, m),
        sel(REQUIRES),
        order == peel_order(graph_nodes(g).dom(), graph_edges(g), sel),
        graph_nodes(g).remove_keys(order.to_set()).is_empty(),
        names.len() == order.len(),
        forall|k: int| 0 <= k < order.len() ==> #[trigger] names[k] == graph_nodes(g)[order[k]],
    ensures
        is_invocation_order(c, names),
{
    let nodes = graph_nodes(g).dom();
    let edges = graph_edges(g);
    let p = name_index_pairs(m);
    law_peel_order_lists_distinct_nodes(nodes, edges, sel);
    assert forall|k: int| 0 <= k < order.len() implies p.dom().contains(#[trigger] names[k]) && p[names[k]] == order[k] by {
        assert(nodes.contains(order[k]));
    }
    assert forall|i: int, j: int| 0 <= i < j < names.len() implies names[i] != names[j] by {
        assert(p[names[i]] == order[i]);
        assert(p[names[j]] == order[j]);
    }
    assert forall|a: Seq<char>| hosted(c, a) <==> names.contains(a) by {
        if hosted(c, a) {
            assert(p.dom().contains(a));
            let x = p[a];
            assert(nodes.contains(x));
            if !order.to_set().contains(x) {
                assert(graph_nodes(g).remove_keys(order.to_set()).dom().contains(x));
            }
            let k = choose|k: int| 0 <= k < order.len() && order[k] == x;
            assert(names[k] == a);
        }
        if names.contains(a) {
            let k = choose|k: int| 0 <= k < names.len() && names[k] == a;
            assert(p.dom().contains(names[k]));
        }
    }
    assert forall|i: int, j: int| 0 <= i < names.len() && 0 <= j < names.len()
        && #[trigger] requires_rel(c, names[i], names[j]) implies j < i by {
        assert(p[names[i]] == order[i]);
        assert(p[names[j]] == order[j]);
        assert(edges.contains((order[i], order[j], REQUIRES)));
        law_peel_order_is_topological(nodes, edges, sel, order[i], order[j], REQUIRES, i);
        let q = choose|q: int| 0 <= q < i && order[q] == order[j];
        assert(q == j);
    }
}

/// Whether the component of that name accepts notifications.
fn accepts_by_name(c: &Vec<ComponentHandle>, name: &String) -> (r: bool)
    requires
        components_wf(c@),
    ensures
        r == accepts_notifications(c@, name@),
{
    let mut k: usize = 0;
    while k < c.len()
        invariant
            0 <= k <= c@.len(),
            components_wf(c@),
            forall|q: int| 0 <= q < k ==> (#[trigger] c@[q]).name@ != name@,
        decreases c@.len() - k,
    {
        if same_text(c[k].name.as_str(), name.as_str()) {
            proof {
                if accepts_notifications(c@, name@) {
                    let q = choose|q: int| 0 <= q < c@.len() && (#[trigger] c@[q]).name@ == name@ && c@[q].decl.accept_notifications;
                    if q < k {
                        assert(c@[q].name@ != c@[k as int].name@);
                    } else if q > k {
                        assert(c@[k as int].name@ != c@[q].name@);
                    }
                }
            }
            return c[k].decl.accept_notifications;
        }
        k = k + 1;
    }
    false
}

/// The number of relations of a handle is the sum of its lists.
proof fn lemma_relation_lengths(h: ComponentHandle)
    requires
        handle_wf(h),
    ensures
        h.relations@.len() == h.decl.peers@.len() + h.decl.notify@.len() + h.decl.requirements@.len(),
{
    assert(views(h.relations@).len() == h.relations@.len());
}

/// The bindings of the notified components that accept notifications.
fn plan_notify(c: &Vec<ComponentHandle>) -> (r: Vec<RouteBinding>)
    requires
        components_wf(c@),
    ensures
        forall|t: (Seq<char>, int, Seq<char>)| #![trigger is_notify_binding(c@, t)] #![trigger listed(r@, t)]
            is_notify_binding(c@, t) <==> listed(r@, t),
{
    let mut out: Vec<RouteBinding> = Vec::new();
    let mut i: usize = 0;
    while i < c.len()
        invariant
            0 <= i <= c@.len(),
            components_wf(c@),
            forall|t: (Seq<char>, int, Seq<char>)| #![trigger listed(out@, t)]
                listed(out@, t) <==> exists|i2: int, j2: int| i2 < i && notify_binding_at(c@, i2, j2, t),
        decreases c@.len() - i,
    {
        let h = &c[i];
        let total = h.relations.len();
        proof {
            lemma_relation_lengths(c@[i as int]);
        }
        let mut j: usize = 0;
        while j < h.decl.notify.len()
            invariant
                0 <= i < c@.len(),
                h == c@[i as int],
                0 <= j <= h.decl.notify@.len(),
                total == h.decl.peers@.len() + h.decl.notify@.len() + h.decl.requirements@.len(),
                components_wf(c@),
                forall|t: (Seq<char>, int, Seq<char>)| #![trigger listed(out@, t)]
                    listed(out@, t) <==> (exists|i2: int, j2: int| i2 < i && notify_binding_at(c@, i2, j2, t))
                        || (exists|j2: int| j2 < j && notify_binding_at(c@, i as int, j2, t)),
            decreases h.decl.notify@.len() - j,
        {
            let n = &h.decl.notify[j];
            let ghost before = out@;
            if !same_text(n.as_str(), h.name.as_str()) && accepts_by_name(c, n) {
                let b = RouteBinding { component: h.name.clone(), relation_id: h.decl.peers.len() + j, other: n.clone() };
                out.push(b);
                proof {
                    let t0 = binding_view(b);
                    assert(notify_binding_at(c@, i as int, j as int, t0));
                    assert forall|t: (Seq<char>, int, Seq<char>)| #![trigger listed(out@, t)]
                        listed(out@, t) <==> (exists|i2: int, j2: int| i2 < i && notify_binding_at(c@, i2, j2, t))
                            || (exists|j2: int| j2 < j + 1 && notify_binding_at(c@, i as int, j2, t)) by {
                        if listed(out@, t) {
                            let k = choose|k: int| 0 <= k < out@.len() && binding_view(#[trigger] out@[k]) == t;
                            if k < before.len() {
                                assert(before[k] == out@[k]);
                                assert(listed(before, t));
                            }
                        }
                        if listed(before, t) {
                            let k = choose|k: int| 0 <= k < before.len() && binding_view(#[trigger] before[k]) == t;
                            assert(out@[k] == before[k]);
                        }
                        if t == t0 {
                            assert(out@[before.len() as int] == b);
                        }
                        if exists|j2: int| j2 < j + 1 && notify_binding_at(c@, i as int, j2, t) {
                            let j2 = choose|j2: int| j2 < j + 1 && notify_binding_at(c@, i as int, j2, t);
                            if j2 == j {
                                assert(t == t0);
                            }
                        }
                    }
                }
            } else {
                proof {
                    assert forall|t: (Seq<char>, int, Seq<char>)| #![trigger listed(out@, t)]
                        listed(out@, t) <==> (exists|i2: int, j2: int| i2 < i && notify_binding_at(c@, i2, j2, t))
                            || (exists|j2: int| j2 < j + 1 && notify_binding_at(c@, i as int, j2, t)) by {
                        if exists|j2: int| j2 < j + 1 && notify_binding_at(c@, i as int, j2, t) {
                            let j2 = choose|j2: int| j2 < j + 1 && notify_binding_at(c@, i as int, j2, t);
                            assert(j2 != j);
                        }
                    }
                }
            }
            j = j + 1;
        }
        proof {
            assert forall|t: (Seq<char>, int, Seq<char>)| #![trigger listed(out@, t)]
                listed(out@, t) <==> exists|i2: int, j2: int| i2 < i + 1 && notify_binding_at(c@, i2, j2, t) by {
                if exists|i2: int, j2: int| i2 < i + 1 && notify_binding_at(c@, i2, j2, t) {
                    let (i2, j2) = choose|i2: int, j2: int| i2 < i + 1 && notify_binding_at(c@, i2, j2, t);
                    if i2 == i {
                        assert(exists|j3: int| j3 < h.decl.notify@.len() && notify_binding_at(c@, i as int, j3, t));
                    }
                }
            }
        }
        i = i + 1;
    }
    out
}

/// The bindings of the peers.
fn plan_peers(c: &Vec<ComponentHandle>) -> (r: Vec<RouteBinding>)
    requires
        components_wf(c@),
    ensures
        forall|t: (Seq<char>, int, Seq<char>)| #![trigger is_peer_binding(c@, t)] #![trigger listed(r@, t)]
            is_peer_binding(c@, t) <==> listed(r@, t),
{
    let mut out: Vec<RouteBinding> = Vec::new();
    let mut i: usize = 0;
    while i < c.len()
        invariant
            0 <= i <= c@.len(),
            components_wf(c@),
            forall|t: (Seq<char>, int, Seq<char>)| #![trigger listed(out@, t)]
                listed(out@, t) <==> exists|i2: int, j2: int| i2 < i && peer_binding_at(c@, i2, j2, t),
        decreases c@.len() - i,
    {
        let h = &c[i];
        let total = h.relations.len();
        proof {
            lemma_relation_lengths(c@[i as int]);
        }
        let mut j: usize = 0;
        while j < h.decl.peers.len()
            invariant
                0 <= i < c@.len(),
                h == c@[i as int],
                0 <= j <= h.decl.peers@.len(),
                total == h.decl.peers@.len() + h.decl.notify@.len() + h.decl.requirements@.len(),
                components_wf(c@),
                forall|t: (Seq<char>, int, Seq<char>)| #![trigger listed(out@, t)]
                    listed(out@, t) <==> (exists|i2: int, j2: int| i2 < i && peer_binding_at(c@, i2, j2, t))
                        || (exists|j2: int| j2 < j && peer_binding_at(c@, i as int, j2, t)),
            decreases h.decl.peers@.len() - j,
        {
            let n = &h.decl.peers[j];
            let ghost before = out@;
            let b = RouteBinding { component: h.name.clone(), relation_id: j, other: n.clone() };
            out.push(b);
            proof {
                let t0 = binding_view(b);
                assert(peer_binding_at(c@, i as int, j as int, t0));
                assert forall|t: (Seq<char>, int, Seq<char>)| #![trigger listed(out@, t)]
                    listed(out@, t) <==> (exists|i2: int, j2: int| i2 < i && peer_binding_at(c@, i2, j2, t))
                        || (exists|j2: int| j2 < j + 1 && peer_binding_at(c@, i as int, j2, t)) by {
                    if listed(out@, t) {
                        let k = choose|k: int| 0 <= k < out@.len() && binding_view(#[trigger] out@[k]) == t;
                        if k < before.len() {
                            assert(before[k] == out@[k]);
                            assert(listed(before, t));
                        }
                    }
                    if listed(before, t) {
                        let k = choose|k: int| 0 <= k < before.len() && binding_view(#[trigger] before[k]) == t;
                        assert(out@[k] == before[k]);
                    }
                    if t == t0 {
                        assert(out@[before.len() as int] == b);
                    }
                    if exists|j2: int| j2 < j + 1 && peer_binding_at(c@, i as int, j2, t) {
                        let j2 = choose|j2: int| j2 < j + 1 && peer_binding_at(c@, i as int, j2, t);
                        if j2 == j {
                            assert(t == t0);
                        }
                    }
                }
            }
            j = j + 1;
        }
        proof {
            assert forall|t: (Seq<char>, int, Seq<char>)| #![trigger listed(out@, t)]
                listed(out@, t) <==> exists|i2: int, j2: int| i2 < i + 1 && peer_binding_at(c@, i2, j2, t) by {
                if exists|i2: int, j2: int| i2 < i + 1 && peer_binding_at(c@, i2, j2, t) {
                    let (i2, j2) = choose|i2: int, j2: int| i2 < i + 1 && peer_binding_at(c@, i2, j2, t);
                    if i2 == i {
                        assert(exists|j3: int| j3 < h.decl.peers@.len() && peer_binding_at(c@, i as int, j3, t));
                    }
                }
            }
        }
        i = i + 1;
    }
    out
}

/// The bindings of the requirements: each a subscription to the required
/// component's broadcast.
fn plan_requirements(c: &Vec<ComponentHandle>) -> (r: Vec<RouteBinding>)
    requires
        components_wf(c@),
    ensures
        forall|t: (Seq<char>, int, Seq<char>)| #![trigger is_requirement_binding(c@, t)] #![trigger listed(r@, t)]
            is_requirement_binding(c@, t) <==> listed(r@, t),
{
    let mut out: Vec<RouteBinding> = Vec::new();
    let mut i: usize = 0;
    while i < c.len()
        invariant
            0 <= i <= c@.len(),
            components_wf(c@),
            forall|t: (Seq<char>, int, Seq<char>)| #![trigger listed(out@, t)]
                listed(out@, t) <==> exists|i2: int, j2: int| i2 < i && requirement_binding_at(c@, i2, j2, t),
        decreases c@.len() - i,
    {
        let h = &c[i];
        let total = h.relations.len();
        proof {
            lemma_relation_lengths(c@[i as int]);
        }
        let mut j: usize = 0;
        while j < h.decl.requirements.len()
            invariant
                0 <= i < c@.len(),
                h == c@[i as int],
                0 <= j <= h.decl.requirements@.len(),
                total == h.decl.peers@.len() + h.decl.notify@.len() + h.decl.requirements@.len(),
                components_wf(c@),
                forall|t: (Seq<char>, int, Seq<char>)| #![trigger listed(out@, t)]
                    listed(out@, t) <==> (exists|i2: int, j2: int| i2 < i && requirement_binding_at(c@, i2, j2, t))
                        || (exists|j2: int| j2 < j && requirement_binding_at(c@, i as int, j2, t)),
            decreases h.decl.requirements@.len() - j,
        {
            let n = &h.decl.requirements[j];
            let ghost before = out@;
            if !same_text(n.as_str(), h.name.as_str()) {
                let b = RouteBinding {
                    component: h.name.clone(),
                    relation_id: h.decl.peers.len() + h.decl.notify.len() + j,
                    other: n.clone(),
                };
                out.push(b);
                proof {
                    let t0 = binding_view(b);
                    assert(requirement_binding_at(c@, i as int, j as int, t0));
                    assert forall|t: (Seq<char>, int, Seq<char>)| #![trigger listed(out@, t)]
                        listed(out@, t) <==> (exists|i2: int, j2: int| i2 < i && requirement_binding_at(c@, i2, j2, t))
                            || (exists|j2: int| j2 < j + 1 && requirement_binding_at(c@, i as int, j2, t)) by {
                        if listed(out@, t) {
                            let k = choose|k: int| 0 <= k < out@.len() && binding_view(#[trigger] out@[k]) == t;
                            if k < before.len() {
                                assert(before[k] == out@[k]);
                                assert(listed(before, t));
                            }
                        }
                        if listed(before, t) {
                            let k = choose|k: int| 0 <= k < before.len() && binding_view(#[trigger] before[k]) == t;
                            assert(out@[k] == before[k]);
                        }
                        if t == t0 {
                            assert(out@[before.len() as int] == b);
                        }
                        if exists|j2: int| j2 < j + 1 && requirement_binding_at(c@, i as int, j2, t) {
                            let j2 = choose|j2: int| j2 < j + 1 && requirement_binding_at(c@, i as int, j2, t);
                            if j2 == j {
                                assert(t == t0);
                            }
                        }
                    }
                }
            } else {
                proof {
                    assert forall|t: (Seq<char>, int, Seq<char>)| #![trigger listed(out@, t)]
                        listed(out@, t) <==> (exists|i2: int, j2: int| i2 < i && requirement_binding_at(c@, i2, j2, t))
                            || (exists|j2: int| j2 < j + 1 && requirement_binding_at(c@, i as int, j2, t)) by {
                        if exists|j2: int| j2 < j + 1 && requirement_binding_at(c@, i as int, j2, t) {
                            let j2 = choose|j2: int| j2 < j + 1 && requirement_binding_at(c@, i as int, j2, t);
                            assert(j2 != j);
                        }
                    }
                }
            }
            j = j + 1;
        }
        proof {
            assert forall|t: (Seq<char>, int, Seq<char>)| #![trigger listed(out@, t)]
                listed(out@, t) <==> exists|i2: int, j2: int| i2 < i + 1 && requirement_binding_at(c@, i2, j2, t) by {
                if exists|i2: int, j2: int| i2 < i + 1 && requirement_binding_at(c@, i2, j2, t) {
                    let (i2, j2) = choose|i2: int, j2: int| i2 < i + 1 && requirement_binding_at(c@, i2, j2, t);
                    if i2 == i {
                        assert(exists|j3: int| j3 < h.decl.requirements@.len() && requirement_binding_at(c@, i as int, j3, t));
                    }
                }
            }
        }
        i = i + 1;
    }
    out
}

impl ComponentManager {
    /// Checks the relations of the registered components: peers must be
    /// mutual, every related name must be registered, and requirements must
    /// not form a cycle. On success, gives the order in which the components
    /// run: each component after the components it requires.
    pub fn build_routes(&self) -> (r: Result<RoutePlan, RouteError>)
        requires
            self.wf(),
            names_in_use(self.components()).len() < 65535,
            2 * relation_count(self.components(), self.components().len() as int) < 65535,
        ensures
            (r matches Err(RouteError::PeerMismatch { .. })) <==> has_peer_mismatch(self.components()),
            (r matches Err(RouteError::PeerMismatch { component, peer }) ==> exists|i: int, j: int|
                is_first_peer_mismatch(self.components(), i, j) && self.components()[i].name@ == component@
                    && self.components()[i].decl.peers[j]@ == peer@),
            (r matches Err(RouteError::Missing(_))) <==> !has_peer_mismatch(self.components())
                && has_missing(self.components()),
            (r matches Err(RouteError::Missing(names)) ==> distinct_names(views(names@))
                && forall|n: Seq<char>| views(names@).contains(n)
                    <==> referenced(self.components(), n) && !hosted(self.components(), n)),
            (r matches Err(RouteError::Cycle(_))) <==> !has_peer_mismatch(self.components())
                && !has_missing(self.components()) && has_requirement_cycle(self.components()),
            (r matches Err(RouteError::Cycle(names)) ==> distinct_names(views(names@))
                && forall|n: Seq<char>| views(names@).contains(n) <==> blocked_by_cycle(self.components(), n)),
            (r matches Ok(plan) ==> is_invocation_order(self.components(), views(plan.invocation_order@))),
            (r matches Ok(plan) ==> channels_planned(self.components(), plan)),
    {
        let c = &self.known_components;
        let ghost cs = c@;
        let (mut g, m) = build_nodes(c);
        let ghost g0 = g;
        match add_relation_edges(c, &mut g, &m) {
            Err(e) => {
                return Err(e);
            },
            Ok(()) => {},
        }
        proof {
            assert(index_matches(g, m));
        }
        let indices = graph_node_indices(&g);
        proof {
            assert forall|k: int| 0 <= k < indices.len() implies graph_nodes(g).dom().contains(#[trigger] indices[k]) by {
                assert(indices@.contains(indices[k]));
            }
        }
        let all_names = node_names(&g, &m, &indices);
        let mut missing: Vec<String> = Vec::new();
        let mut k: usize = 0;
        while k < all_names.len()
            invariant
                c@ == cs,
                all_names.len() == indices.len(),
                forall|q: int| 0 <= q < indices.len() ==> (#[trigger] all_names[q])@ == graph_nodes(g)[indices[q]],
                forall|q1: int, q2: int| 0 <= q1 < q2 < indices.len() ==> indices[q1] < indices[q2],
                index_matches(g, m),
                forall|q: int| 0 <= q < indices.len() ==> graph_nodes(g).dom().contains(#[trigger] indices[q]),
                0 <= k <= all_names.len(),
                forall|x: Seq<char>| views(missing@).contains(x)
                    <==> exists|q: int| 0 <= q < k && (#[trigger] all_names[q])@ == x && !hosted(cs, x),
                distinct_names(views(missing@)),
            decreases all_names.len() - k,
        {
            let name = &all_names[k];
            if find_component(c, name).is_none() {
                let ghost before = views(missing@);
                proof {
                    assert forall|q: int| 0 <= q < k implies all_names[q]@ != name@ by {
                        assert(graph_nodes(g).dom().contains(indices[q]));
                        assert(name_index_pairs(m)[all_names[q]@] == indices[q]);
                        assert(name_index_pairs(m)[name@] == indices[k as int]);
                    }
                }
                missing.push(name.clone());
                proof {
                    assert(views(missing@) =~= before.push(name@));
                    assert forall|x: Seq<char>| views(missing@).contains(x)
                        <==> exists|q: int| 0 <= q < k + 1 && (#[trigger] all_names[q])@ == x && !hosted(cs, x) by {
                        if views(missing@).contains(x) && x != name@ {
                            let i = choose|i: int| 0 <= i < views(missing@).len() && views(missing@)[i] == x;
                            assert(before[i] == x);
                            assert(before.contains(x));
                        }
                        if exists|q: int| 0 <= q < k + 1 && (#[trigger] all_names[q])@ == x && !hosted(cs, x) {
                            let q = choose|q: int| 0 <= q < k + 1 && (#[trigger] all_names[q])@ == x && !hosted(cs, x);
                            if q < k {
                                assert(before.contains(x));
                                let i = choose|i: int| 0 <= i < before.len() && before[i] == x;
                                assert(views(missing@)[i] == x);
                            } else {
                                assert(views(missing@)[before.len() as int] == x);
                            }
                        }
                    }
                    assert forall|i: int, j: int| 0 <= i < j < views(missing@).len()
                        implies views(missing@)[i] != views(missing@)[j] by {
                        if j == before.len() {
                            assert(before.contains(before[i]));
                        }
                    }
                }
            } else {
                proof {
                    assert forall|x: Seq<char>| views(missing@).contains(x)
                        <==> exists|q: int| 0 <= q < k + 1 && (#[trigger] all_names[q])@ == x && !hosted(cs, x) by {
                        if exists|q: int| 0 <= q < k + 1 && (#[trigger] all_names[q])@ == x && !hosted(cs, x) {
                            let q = choose|q: int| 0 <= q < k + 1 && (#[trigger] all_names[q])@ == x && !hosted(cs, x);
                            assert(q < k);
                        }
                    }
                }
            }
            k = k + 1;
        }
        proof {
            assert forall|x: Seq<char>| views(missing@).contains(x) <==> referenced(cs, x) && !hosted(cs, x) by {
                if referenced(cs, x) && !hosted(cs, x) {
                    assert(name_index_pairs(m).dom().contains(x));
                    let y = name_index_pairs(m)[x];
                    assert(graph_nodes(g).dom().contains(y));
                    assert(indices@.contains(y));
                    let q = choose|q: int| 0 <= q < indices.len() && indices[q] == y;
                    assert(all_names[q]@ == x);
                }
                if views(missing@).contains(x) {
                    let q = choose|q: int| 0 <= q < all_names.len() && (#[trigger] all_names[q])@ == x && !hosted(cs, x);
                    assert(graph_nodes(g).dom().contains(indices[q]));
                    assert(name_index_pairs(m).dom().contains(x));
                }
            }
        }
        if missing.len() > 0 {
            proof {
                assert(views(missing@).contains(views(missing@)[0]));
            }
            return Err(RouteError::Missing(missing));
        }
        proof {
            if has_missing(cs) {
                let x = choose|x: Seq<char>| referenced(cs, x) && !hosted(cs, x);
                assert(views(missing@).contains(x));
            }
            assert(routing_graph(cs, g, m));
        }
        let mut rest = graph_clone(&g);
        let filter = |w: u32| -> (s: bool)
            ensures
                s == (w == REQUIRES),
        {
            w == REQUIRES
        };
        let takes_requirements = filter(REQUIRES);
        let ghost sel = selects(filter);
        proof {
            assert(takes_requirements);
            assert(sel(REQUIRES));
            assert forall|w: u32| #[trigger] sel(w) implies w == REQUIRES by {
                assert(filter.ensures((w,), true));
            }
        }
        let order = get_invocation_order(&mut rest, filter);
        proof {
            lemma_left_nodes_blocked(cs, g, m, rest, order@, sel);
            assert forall|a: Seq<char>| blocked_by_cycle(cs, a) implies graph_nodes(rest).dom().contains(name_index_pairs(m)[a]) by {
                lemma_blocked_node_stays(cs, g, m, order@, sel, a);
            }
        }
        if graph_node_count(&rest) > 0 {
            let left = graph_node_indices(&rest);
            proof {
                assert forall|k: int| 0 <= k < left.len() implies graph_nodes(g).dom().contains(#[trigger] left[k]) by {
                    assert(left@.contains(left[k]));
                }
            }
            let names = node_names(&g, &m, &left);
            proof {
                assert forall|i: int, j: int| 0 <= i < j < views(names@).len()
                    implies views(names@)[i] != views(names@)[j] by {
                    assert(name_index_pairs(m)[names[i]@] == left[i]);
                    assert(name_index_pairs(m)[names[j]@] == left[j]);
                }
                assert forall|n: Seq<char>| views(names@).contains(n) <==> blocked_by_cycle(cs, n) by {
                    if views(names@).contains(n) {
                        let i = choose|i: int| 0 <= i < views(names@).len() && views(names@)[i] == n;
                        assert(left@.contains(left[i]));
                        assert(graph_nodes(rest).dom().contains(left[i]));
                    }
                    if blocked_by_cycle(cs, n) {
                        let x = name_index_pairs(m)[n];
                        assert(graph_nodes(rest).dom().contains(x));
                        assert(left@.contains(x));
                        let i = choose|i: int| 0 <= i < left.len() && left[i] == x;
                        lemma_blocked_node_stays(cs, g, m, order@, sel, n);
                        assert(views(names@)[i] == n);
                    }
                }
                let x = graph_nodes(rest).dom().choose();
                assert(graph_nodes(rest).dom().contains(x)) by {
                    if graph_nodes(rest).dom().is_empty() {
                        assert(graph_nodes(rest).dom() =~= Set::<u16>::empty());
                        assert(graph_nodes(rest).len() == 0);
                    }
                }
                assert(blocked_by_cycle(cs, graph_nodes(g)[x]));
            }
            return Err(RouteError::Cycle(names));
        }
        proof {
            assert(graph_nodes(rest).dom().len() == 0);
            assert(graph_nodes(rest).dom() =~= Set::<u16>::empty()) by {
                if exists|x: u16| graph_nodes(rest).dom().contains(x) {
                    let x = choose|x: u16| graph_nodes(rest).dom().contains(x);
                    vstd::set_lib::lemma_len_subset(set![x], graph_nodes(rest).dom());
                }
            }
            if has_requirement_cycle(cs) {
                let a = choose|a: Seq<char>| blocked_by_cycle(cs, a);
                assert(graph_nodes(rest).dom().contains(name_index_pairs(m)[a]));
            }
            law_peel_order_lists_distinct_nodes(graph_nodes(g).dom(), graph_edges(g), sel);
            assert forall|k: int| 0 <= k < order.len() implies graph_nodes(g).dom().contains(#[trigger] order[k]) by {}
        }
        let names = node_names(&g, &m, &order);
        proof {
            lemma_full_peel_is_invocation_order(cs, g, m, order@, sel, views(names@));
        }
        let notify_channels = plan_notify(c);
        let peer_channels = plan_peers(c);
        let requirement_channels = plan_requirements(c);
        Ok(RoutePlan { invocation_order: names, notify_channels, peer_channels, requirement_channels })
    }
}

} // verus!
