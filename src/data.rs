use std::collections::HashMap;
use vstd::prelude::*;

verus! {

broadcast use vstd::std_specs::hash::group_hash_axioms;

/// The lifecycle of an entry. `next` and `prev` walk a fixed ring:
/// Pending -> InProgress -> Completed -> Canceled -> Pending.
#[derive(Clone, Copy, Debug, PartialEq, Eq, Structural)]
pub enum EntryState {
    Pending,
    InProgress,
    Completed,
    Canceled,
}

/// The state that follows `s` on the ring.
pub open spec fn state_after(s: EntryState) -> EntryState {
    match s {
        EntryState::Pending => EntryState::InProgress,
        EntryState::InProgress => EntryState::Completed,
        EntryState::Completed => EntryState::Canceled,
        EntryState::Canceled => EntryState::Pending,
    }
}

/// The state that precedes `s` on the ring.
pub open spec fn state_before(s: EntryState) -> EntryState {
    match s {
        EntryState::Pending => EntryState::Canceled,
        EntryState::InProgress => EntryState::Pending,
        EntryState::Completed => EntryState::InProgress,
        EntryState::Canceled => EntryState::Completed,
    }
}

impl EntryState {
    pub fn next(&self) -> (r: EntryState)
        ensures
            r == state_after(*self),
    {
        match self {
            EntryState::Pending => EntryState::InProgress,
            EntryState::InProgress => EntryState::Completed,
            EntryState::Completed => EntryState::Canceled,
            EntryState::Canceled => EntryState::Pending,
        }
    }

    pub fn prev(&self) -> (r: EntryState)
        ensures
            r == state_before(*self),
    {
        match self {
            EntryState::Pending => EntryState::Canceled,
            EntryState::InProgress => EntryState::Pending,
            EntryState::Completed => EntryState::InProgress,
            EntryState::Canceled => EntryState::Completed,
        }
    }
}

/// The ring closes: `prev` undoes `next`, `next` undoes `prev`, and four steps
/// forward come back to the start.
pub proof fn lemma_state_ring(s: EntryState)
    ensures
        state_before(state_after(s)) == s,
        state_after(state_before(s)) == s,
        state_after(state_after(state_after(state_after(s)))) == s,
{
}

/// Relies on uuid::Uuid::new_v4 (random version-4 identifier, taken as its
/// 128-bit value by Uuid::as_u128). Nothing is promised of the value.
#[verifier::external_body]
fn fresh_id() -> (r: u128) {
    uuid::Uuid::new_v4().as_u128()
}

struct NodeMeta {
    id: u128,
    name: String,
    desc: String,
}

impl NodeMeta {
    fn new(name: String, desc: String) -> (r: NodeMeta)
        ensures
            r.name@ == name@,
            r.desc@ == desc@,
    {
        NodeMeta { id: fresh_id(), name, desc }
    }
}

/// A task: a node with a lifecycle state and no children.
pub struct Entry {
    meta: NodeMeta,
    state: EntryState,
}

impl Entry {
    pub closed spec fn id(&self) -> u128 {
        self.meta.id
    }

    pub closed spec fn name(&self) -> Seq<char> {
        self.meta.name@
    }

    pub closed spec fn desc(&self) -> Seq<char> {
        self.meta.desc@
    }

    pub closed spec fn state(&self) -> EntryState {
        self.state
    }

    /// A new entry under a fresh identifier, in state `Pending`.
    pub fn new(name: String, desc: String) -> (r: Entry)
        ensures
            r.name() == name@,
            r.desc() == desc@,
            r.state() == EntryState::Pending,
    {
        Entry { meta: NodeMeta::new(name, desc), state: EntryState::Pending }
    }
}

/// The items of `s` other than `x`, in their order.
pub open spec fn without(s: Seq<u128>, x: u128) -> Seq<u128>
    decreases s.len(),
{
    if s.len() == 0 {
        s
    } else {
        let rest = without(s.drop_last(), x);
        if s.last() == x {
            rest
        } else {
            rest.push(s.last())
        }
    }
}

/// What `without` keeps: every item of `s` but `x`.
pub proof fn lemma_without_contains(s: Seq<u128>, x: u128, y: u128)
    ensures
        without(s, x).contains(y) <==> (s.contains(y) && y != x),
    decreases s.len(),
{
    if s.len() > 0 {
        let t = s.drop_last();
        let rest = without(t, x);
        lemma_without_contains(t, x, y);
        if s.contains(y) && y != x {
            let k = choose|k: int| 0 <= k < s.len() && s[k] == y;
            if k < t.len() {
                assert(t[k] == y);
                if s.last() != x {
                    let j = choose|j: int| 0 <= j < rest.len() && rest[j] == y;
                    assert(rest.push(s.last())[j] == y);
                }
            } else {
                assert(rest.push(s.last())[rest.len() as int] == y);
            }
        }
        if without(s, x).contains(y) {
            let w = without(s, x);
            let k = choose|k: int| 0 <= k < w.len() && w[k] == y;
            if s.last() == x || k < rest.len() {
                assert(rest[k] == y);
                let j = choose|j: int| 0 <= j < t.len() && t[j] == y;
                assert(s[j] == y);
            } else {
                assert(s[s.len() - 1] == y);
            }
        }
    }
}

/// Taking an item out keeps a sequence free of duplicates.
pub proof fn lemma_without_no_duplicates(s: Seq<u128>, x: u128)
    requires
        s.no_duplicates(),
    ensures
        without(s, x).no_duplicates(),
    decreases s.len(),
{
    if s.len() > 0 {
        let t = s.drop_last();
        assert(t.no_duplicates());
        lemma_without_no_duplicates(t, x);
        if s.last() != x {
            lemma_without_contains(t, x, s.last());
            assert(!t.contains(s.last()));
        }
    }
}

/// Taking out an item that is absent changes nothing.
pub proof fn lemma_without_absent(s: Seq<u128>, x: u128)
    requires
        !s.contains(x),
    ensures
        without(s, x) == s,
    decreases s.len(),
{
    if s.len() > 0 {
        assert(!s.drop_last().contains(x));
        lemma_without_absent(s.drop_last(), x);
        assert(s.drop_last().push(s.last()) == s);
    }
}

/// Removing an identifier from an order a second time has no further effect.
pub proof fn lemma_remove_order_idempotent(s: Seq<u128>, x: u128)
    ensures
        without(without(s, x), x) == without(s, x),
{
    lemma_without_contains(s, x, x);
    lemma_without_absent(without(s, x), x);
}

/// `s` with `x` taken out and put back at `pos`, or at the end where `pos` lies
/// beyond the remaining items.
pub open spec fn moved_to(s: Seq<u128>, x: u128, pos: int) -> Seq<u128> {
    let rest = without(s, x);
    if pos <= rest.len() {
        rest.insert(pos, x)
    } else {
        rest.push(x)
    }
}

/// `s` with the places of `a` and `b` exchanged where both occur, else `s`.
pub open spec fn swapped(s: Seq<u128>, a: u128, b: u128) -> Seq<u128> {
    if s.contains(a) && s.contains(b) {
        s.map_values(|x: u128| if x == a { b } else if x == b { a } else { x })
    } else {
        s
    }
}

/// Moving `x` keeps the items of `s`, each once.
pub proof fn lemma_moved_to_items(s: Seq<u128>, x: u128, pos: int)
    requires
        s.no_duplicates(),
        s.contains(x),
        0 <= pos,
    ensures
        moved_to(s, x, pos).no_duplicates(),
        forall|y: u128| moved_to(s, x, pos).contains(y) <==> s.contains(y),
{
    let rest = without(s, x);
    lemma_without_no_duplicates(s, x);
    lemma_without_contains(s, x, x);
    let m = moved_to(s, x, pos);
    let p = if pos <= rest.len() { pos } else { rest.len() as int };
    assert(m =~= rest.insert(p, x));
    assert forall|y: u128| m.contains(y) <==> s.contains(y) by {
        lemma_without_contains(s, x, y);
        if rest.contains(y) {
            let j = choose|j: int| 0 <= j < rest.len() && rest[j] == y;
            if j < p {
                assert(m[j] == y);
            } else {
                assert(m[j + 1] == y);
            }
        }
        if y == x {
            assert(m[p] == y);
        }
        if m.contains(y) && y != x {
            let j = choose|j: int| 0 <= j < m.len() && m[j] == y;
            if j < p {
                assert(rest[j] == y);
            } else {
                assert(rest[j - 1] == y);
            }
        }
    }
    assert forall|i: int, j: int| 0 <= i < m.len() && 0 <= j < m.len() && i != j implies m[i] != m[j] by {
        if i != p && j != p {
            let i2 = if i < p { i } else { i - 1 };
            let j2 = if j < p { j } else { j - 1 };
            assert(m[i] == rest[i2] && m[j] == rest[j2]);
        } else if i == p {
            let j2 = if j < p { j } else { j - 1 };
            assert(m[j] == rest[j2]);
            assert(rest.contains(rest[j2]));
        } else {
            let i2 = if i < p { i } else { i - 1 };
            assert(m[i] == rest[i2]);
            assert(rest.contains(rest[i2]));
        }
    }
}

/// Swapping two places keeps the items of `s`, each once.
pub proof fn lemma_swapped_items(s: Seq<u128>, a: u128, b: u128)
    requires
        s.no_duplicates(),
    ensures
        swapped(s, a, b).no_duplicates(),
        forall|y: u128| swapped(s, a, b).contains(y) <==> s.contains(y),
{
    let m = swapped(s, a, b);
    if s.contains(a) && s.contains(b) {
        let ia = choose|i: int| 0 <= i < s.len() && s[i] == a;
        let ib = choose|i: int| 0 <= i < s.len() && s[i] == b;
        assert forall|y: u128| m.contains(y) <==> s.contains(y) by {
            if s.contains(y) {
                let j = choose|j: int| 0 <= j < s.len() && s[j] == y;
                if y == a {
                    assert(m[ib] == y);
                } else if y == b {
                    assert(m[ia] == y);
                } else {
                    assert(m[j] == y);
                }
            }
            if m.contains(y) {
                let j = choose|j: int| 0 <= j < m.len() && m[j] == y;
                if s[j] == a {
                    assert(s[ib] == y);
                } else if s[j] == b {
                    assert(s[ia] == y);
                } else {
                    assert(s[j] == y);
                }
            }
        }
        assert forall|i: int, j: int| 0 <= i < m.len() && 0 <= j < m.len() && i != j implies m[i] != m[j] by {
            assert(s[i] != s[j]);
        }
    }
}

/// A group of nodes. It holds the identifiers of its children, in display order.
pub struct Container {
    meta: NodeMeta,
    order: Vec<u128>,
}

impl Container {
    pub closed spec fn id(&self) -> u128 {
        self.meta.id
    }

    pub closed spec fn name(&self) -> Seq<char> {
        self.meta.name@
    }

    pub closed spec fn desc(&self) -> Seq<char> {
        self.meta.desc@
    }

    pub closed spec fn children(&self) -> Seq<u128> {
        self.order@
    }

    /// A new empty container under a fresh identifier.
    pub fn new(name: String, desc: String) -> (r: Container)
        ensures
            r.name() == name@,
            r.desc() == desc@,
            r.children() == Seq::<u128>::empty(),
    {
        Container { meta: NodeMeta::new(name, desc), order: Vec::new() }
    }

    fn add_order(&mut self, id: &u128)
        ensures
            final(self).meta == old(self).meta,
            final(self).order@ == old(self).order@.push(*id),
    {
        self.order.push(*id);
    }

    fn remove_order(&mut self, id: &u128)
        ensures
            final(self).meta == old(self).meta,
            final(self).order@ == without(old(self).order@, *id),
    {
        broadcast use vstd::seq_lib::group_seq_properties;

        let ghost s = self.order@;
        let mut kept: Vec<u128> = Vec::new();
        let mut i: usize = 0;
        while i < self.order.len()
            invariant
                self.order@ == s,
                0 <= i <= s.len(),
                kept@ == without(s.take(i as int), *id),
            decreases s.len() - i,
        {
            let x = self.order[i];
            proof {
                assert(s.take(i as int + 1) == s.take(i as int).push(x));
                assert(s.take(i as int + 1).drop_last() == s.take(i as int));
            }
            if x != *id {
                kept.push(x);
            }
            i = i + 1;
        }
        proof {
            assert(s.take(s.len() as int) == s);
        }
        self.order = kept;
    }

    fn move_order(&mut self, id: &u128, pos: usize)
        ensures
            final(self).meta == old(self).meta,
            final(self).order@ == moved_to(old(self).order@, *id, pos as int),
    {
        self.remove_order(id);
        if pos <= self.order.len() {
            self.order.insert(pos, *id);
        } else {
            self.order.push(*id);
        }
    }

    fn swap_order(&mut self, id1: &u128, id2: &u128)
        requires
            old(self).order@.no_duplicates(),
        ensures
            final(self).meta == old(self).meta,
            final(self).order@ == swapped(old(self).order@, *id1, *id2),
    {
        let ghost s = self.order@;
        let i = position_of(&self.order, id1);
        let j = position_of(&self.order, id2);
        match (i, j) {
            (Some(i), Some(j)) => {
                self.order.set(i, *id2);
                self.order.set(j, *id1);
                proof {
                    assert(self.order@ =~= swapped(s, *id1, *id2));
                }
            },
            _ => {},
        }
    }
}

/// The first place of `x` in `v`.
fn position_of(v: &Vec<u128>, x: &u128) -> (r: Option<usize>)
    ensures
        match r {
            Some(i) => i < v@.len() && v@[i as int] == *x && !v@.take(i as int).contains(*x),
            None => !v@.contains(*x),
        },
{
    let mut i: usize = 0;
    while i < v.len()
        invariant
            0 <= i <= v@.len(),
            !v@.take(i as int).contains(*x),
        decreases v@.len() - i,
    {
        if v[i] == *x {
            return Some(i);
        }
        proof {
            assert(v@.take(i as int + 1) =~= v@.take(i as int).push(v@[i as int]));
        }
        i = i + 1;
    }
    proof {
        assert(v@.take(i as int) =~= v@);
    }
    None
}

/// A node of the tree: a container or an entry.
pub enum Node {
    Entry(Entry),
    Container(Container),
}

impl Node {
    /// The node's own identifier.
    pub open spec fn id(&self) -> u128 {
        match self {
            Node::Entry(e) => e.id(),
            Node::Container(c) => c.id(),
        }
    }

    pub open spec fn name(&self) -> Seq<char> {
        match self {
            Node::Entry(e) => e.name(),
            Node::Container(c) => c.name(),
        }
    }

    pub open spec fn desc(&self) -> Seq<char> {
        match self {
            Node::Entry(e) => e.desc(),
            Node::Container(c) => c.desc(),
        }
    }

    /// The children in display order; an entry has none.
    pub open spec fn children(&self) -> Seq<u128> {
        match self {
            Node::Entry(e) => Seq::empty(),
            Node::Container(c) => c.children(),
        }
    }

    /// `self` and `other` are the same kind of node with the same identifier,
    /// name, description and (for an entry) state; their children may differ.
    pub open spec fn same_but_children(&self, other: Node) -> bool {
        &&& self.id() == other.id()
        &&& self.name() == other.name()
        &&& self.desc() == other.desc()
        &&& match (*self, other) {
            (Node::Entry(a), Node::Entry(b)) => a.state() == b.state(),
            (Node::Container(_), Node::Container(_)) => true,
            _ => false,
        }
    }

    pub fn get_entry(&self) -> (r: Option<&Entry>)
        ensures
            match self {
                Node::Entry(e) => r == Some(e),
                Node::Container(_) => r is None,
            },
    {
        match self {
            Node::Entry(e) => Some(e),
            _ => None,
        }
    }

    pub fn get_container(&self) -> (r: Option<&Container>)
        ensures
            match self {
                Node::Container(c) => r == Some(c),
                Node::Entry(_) => r is None,
            },
    {
        match self {
            Node::Container(c) => Some(c),
            _ => None,
        }
    }

    pub fn is_entry(&self) -> (r: bool)
        ensures
            r == (self is Entry),
    {
        matches!(self, Node::Entry(_))
    }

    pub fn is_container(&self) -> (r: bool)
        ensures
            r == (self is Container),
    {
        matches!(self, Node::Container(_))
    }

    fn meta(&self) -> (r: &NodeMeta)
        ensures
            r.id == self.id(),
            r.name@ == self.name(),
            r.desc@ == self.desc(),
    {
        match self {
            Node::Entry(e) => &e.meta,
            Node::Container(c) => &c.meta,
        }
    }

    pub fn get_id(&self) -> (r: &u128)
        ensures
            *r == self.id(),
    {
        &self.meta().id
    }

    pub fn get_name(&self) -> (r: &str)
        ensures
            r@ == self.name(),
    {
        self.meta().name.as_str()
    }

    pub fn get_desc(&self) -> (r: &str)
        ensures
            r@ == self.desc(),
    {
        self.meta().desc.as_str()
    }

    pub fn set_name(&mut self, name: String)
        ensures
            final(self).name() == name@,
            final(self).id() == old(self).id(),
            final(self).desc() == old(self).desc(),
            final(self).children() == old(self).children(),
            (*final(self) is Entry) == (*old(self) is Entry),
            *final(self) is Entry ==> (*final(self))->Entry_0.state() == (*old(self))->Entry_0.state(),
    {
        match self {
            Node::Entry(e) => e.meta.name = name,
            Node::Container(c) => c.meta.name = name,
        }
    }

    pub fn set_desc(&mut self, desc: String)
        ensures
            final(self).desc() == desc@,
            final(self).id() == old(self).id(),
            final(self).name() == old(self).name(),
            final(self).children() == old(self).children(),
            (*final(self) is Entry) == (*old(self) is Entry),
            *final(self) is Entry ==> (*final(self))->Entry_0.state() == (*old(self))->Entry_0.state(),
    {
        match self {
            Node::Entry(e) => e.meta.desc = desc,
            Node::Container(c) => c.meta.desc = desc,
        }
    }
}

/// Why a tree operation was refused.
#[derive(Clone, Copy, Debug, PartialEq, Eq, Structural)]
pub enum TreeError {
    /// No node has the identifier.
    NodeNotFound,
    /// The node is not of the kind the operation needs.
    WrongKind,
    /// The root has no parent.
    NoParent,
    /// The two nodes do not share a parent.
    DifferentParents,
    /// A node cannot be swapped with itself.
    SelfSwap,
    /// The node already sits in that container.
    AlreadyInContainer,
    /// A container that still has children cannot be removed.
    HasChildren,
    /// The new parent is the node itself or one of its descendants.
    WouldCreateCycle,
}

/// Whether walking up the parent links `pm` from `from`, through at most `fuel`
/// links, meets `target` (`from` itself counts).
pub open spec fn reaches_up(pm: Map<u128, u128>, from: u128, target: u128, fuel: nat) -> bool
    decreases fuel,
{
    if from == target {
        true
    } else if fuel == 0 || !pm.contains_key(from) {
        false
    } else {
        reaches_up(pm, pm[from], target, (fuel - 1) as nat)
    }
}

/// More fuel reaches no less.
proof fn lemma_reaches_more_fuel(pm: Map<u128, u128>, from: u128, target: u128, f: nat, g: nat)
    requires
        reaches_up(pm, from, target, f),
        f <= g,
    ensures
        reaches_up(pm, from, target, g),
    decreases f,
{
    if from != target {
        lemma_reaches_more_fuel(pm, pm[from], target, (f - 1) as nat, (g - 1) as nat);
    }
}

/// Walks chain: from `a` to `b`, then from `b` to `c`.
proof fn lemma_reaches_trans(pm: Map<u128, u128>, a: u128, b: u128, c: u128, f1: nat, f2: nat)
    requires
        reaches_up(pm, a, b, f1),
        reaches_up(pm, b, c, f2),
    ensures
        reaches_up(pm, a, c, f1 + f2),
    decreases f1,
{
    if a == b {
        lemma_reaches_more_fuel(pm, b, c, f2, f1 + f2);
    } else if a != c {
        lemma_reaches_trans(pm, pm[a], b, c, (f1 - 1) as nat, f2);
    }
}

/// Where two link maps differ only at `id`, a walk in the first either makes
/// the same way in the second or meets `id` there first.
proof fn lemma_reaches_split(
    pm1: Map<u128, u128>,
    pm2: Map<u128, u128>,
    id: u128,
    from: u128,
    target: u128,
    f: nat,
)
    requires
        forall|x: u128|
            x != id ==> (#[trigger] pm1.contains_key(x) == pm2.contains_key(x) && (pm1.contains_key(
                x,
            ) ==> pm1[x] == pm2[x])),
        reaches_up(pm1, from, target, f),
    ensures
        reaches_up(pm2, from, target, f) || reaches_up(pm2, from, id, f),
    decreases f,
{
    if from != target && from != id {
        assert(pm1.contains_key(from));
        lemma_reaches_split(pm1, pm2, id, pm1[from], target, (f - 1) as nat);
    }
}

/// The tree: every node keyed by its identifier, a root container, and the
/// parent of every other node.
pub struct Tree {
    root: u128,
    nodes: HashMap<u128, Node>,
    locations: HashMap<u128, u128>,
}

impl Tree {
    pub closed spec fn root_id(&self) -> u128 {
        self.root
    }

    pub closed spec fn node_map(&self) -> Map<u128, Node> {
        self.nodes@
    }

    pub closed spec fn parent_map(&self) -> Map<u128, u128> {
        self.locations@
    }

    pub open spec fn children_of(&self, id: u128) -> Seq<u128> {
        self.node_map()[id].children()
    }

    /// The root is a container and has no parent.
    pub open spec fn root_ok(&self) -> bool {
        &&& self.node_map().contains_key(self.root_id())
        &&& self.node_map()[self.root_id()] is Container
        &&& !self.parent_map().contains_key(self.root_id())
    }

    /// Each node is stored under its own identifier.
    pub open spec fn keys_ok(&self) -> bool {
        forall|k: u128| #[trigger]
            self.node_map().contains_key(k) ==> self.node_map()[k].id() == k
    }

    /// The recorded parent of a node is a container that lists it.
    pub open spec fn parents_ok(&self) -> bool {
        forall|k: u128| #[trigger]
            self.parent_map().contains_key(k) ==> {
                let p = self.parent_map()[k];
                &&& self.node_map().contains_key(p)
                &&& self.node_map()[p] is Container
                &&& self.children_of(p).contains(k)
            }
    }

    /// Every child listed by a container records that container as its parent,
    /// and no container lists a child twice.
    pub open spec fn children_ok(&self) -> bool {
        &&& forall|c: u128, i: int|
            self.node_map().contains_key(c) && 0 <= i < self.children_of(c).len() ==> {
                &&& self.parent_map().contains_key(#[trigger] self.children_of(c)[i])
                &&& self.parent_map()[self.children_of(c)[i]] == c
            }
        &&& forall|c: u128| #[trigger]
            self.node_map().contains_key(c) ==> self.children_of(c).no_duplicates()
    }

    /// The stored nodes are the root and the nodes that have a parent.
    pub open spec fn domain_ok(&self) -> bool {
        forall|k: u128|
            #![trigger self.node_map().contains_key(k)]
            #![trigger self.parent_map().contains_key(k)]
            self.node_map().contains_key(k) <==> (k == self.root_id()
                || self.parent_map().contains_key(k))
    }

    /// Every node's chain of parents ends at the root, which has none: no node
    /// is its own ancestor.
    pub open spec fn acyclic(&self) -> bool {
        forall|k: u128| #[trigger]
            self.node_map().contains_key(k) ==> exists|f: nat|
                reaches_up(self.parent_map(), k, self.root_id(), f)
    }

    /// The structural invariant of the tree.
    pub open spec fn wf(&self) -> bool {
        &&& self.root_ok()
        &&& self.keys_ok()
        &&& self.parents_ok()
        &&& self.children_ok()
        &&& self.domain_ok()
        &&& self.acyclic()
        &&& self.node_map().dom().finite()
    }

    /// The parent of `id`, as `get_parent_id` reports it.
    pub open spec fn parent_lookup(&self, id: u128) -> Result<u128, TreeError> {
        if id == self.root_id() {
            Err(TreeError::NoParent)
        } else if !self.parent_map().contains_key(id) {
            Err(TreeError::NodeNotFound)
        } else {
            Ok(self.parent_map()[id])
        }
    }

    /// Whether `id` names a container, as the operations that need one report it.
    pub open spec fn container_check(&self, id: u128) -> Result<(), TreeError> {
        if !self.node_map().contains_key(id) {
            Err(TreeError::NodeNotFound)
        } else if self.node_map()[id] is Entry {
            Err(TreeError::WrongKind)
        } else {
            Ok(())
        }
    }

    /// Whether `id` names an entry, as the state operations report it.
    pub open spec fn entry_check(&self, id: u128) -> Result<(), TreeError> {
        if !self.node_map().contains_key(id) {
            Err(TreeError::NodeNotFound)
        } else if self.node_map()[id] is Container {
            Err(TreeError::WrongKind)
        } else {
            Ok(())
        }
    }

    /// Outside `touched`, `self` holds the same nodes as `old`.
    pub open spec fn same_outside(&self, old: Tree, touched: Set<u128>) -> bool {
        forall|k: u128|
            old.node_map().contains_key(k) && !touched.contains(k) ==> #[trigger] self.node_map()[k]
                == old.node_map()[k]
    }

    /// `self` is `old` with the children of container `c` now in the order `s`.
    pub open spec fn reordered(&self, old: Tree, c: u128, s: Seq<u128>) -> bool {
        &&& self.root_id() == old.root_id()
        &&& self.parent_map() == old.parent_map()
        &&& self.node_map().dom() == old.node_map().dom()
        &&& self.same_outside(old, set![c])
        &&& self.node_map()[c].same_but_children(old.node_map()[c])
        &&& self.children_of(c) == s
    }

    /// A tree that holds only `root`.
    pub fn new(root: Container) -> (r: Tree)
        requires
            root.children().len() == 0,
        ensures
            r.wf(),
            r.root_id() == root.id(),
            r.node_map() == map![root.id() => Node::Container(root)],
            r.parent_map() == Map::<u128, u128>::empty(),
    {
        let root_id = root.meta.id;
        let root_node = Node::Container(root);
        let mut nodes: HashMap<u128, Node> = HashMap::new();
        nodes.insert(root_id, root_node);
        let r = Tree { root: root_id, nodes, locations: HashMap::new() };
        proof {
            assert(r.node_map() =~= map![root_id => root_node]);
            assert(reaches_up(r.parent_map(), root_id, root_id, 0));
        }
        r
    }

    pub fn get_node(&self, node_id: &u128) -> (r: Result<&Node, TreeError>)
        ensures
            match r {
                Ok(n) => self.node_map().contains_key(*node_id) && *n == self.node_map()[*node_id],
                Err(e) => e == TreeError::NodeNotFound && !self.node_map().contains_key(*node_id),
            },
    {
        match self.nodes.get(node_id) {
            Some(n) => Ok(n),
            None => Err(TreeError::NodeNotFound),
        }
    }

    fn get_container(&self, node_id: &u128) -> (r: Result<&Container, TreeError>)
        ensures
            match r {
                Ok(c) => self.container_check(*node_id) is Ok && Node::Container(*c)
                    == self.node_map()[*node_id],
                Err(e) => self.container_check(*node_id) == Err::<(), TreeError>(e),
            },
    {
        match self.nodes.get(node_id) {
            Some(Node::Container(c)) => Ok(c),
            Some(Node::Entry(_)) => Err(TreeError::WrongKind),
            None => Err(TreeError::NodeNotFound),
        }
    }

    fn get_entry(&self, node_id: &u128) -> (r: Result<&Entry, TreeError>)
        ensures
            match r {
                Ok(e) => self.entry_check(*node_id) is Ok && Node::Entry(*e)
                    == self.node_map()[*node_id],
                Err(e) => self.entry_check(*node_id) == Err::<(), TreeError>(e),
            },
    {
        match self.nodes.get(node_id) {
            Some(Node::Entry(e)) => Ok(e),
            Some(Node::Container(_)) => Err(TreeError::WrongKind),
            None => Err(TreeError::NodeNotFound),
        }
    }

    pub fn get_parent_id(&self, node_id: &u128) -> (r: Result<&u128, TreeError>)
        ensures
            match r {
                Ok(p) => self.parent_lookup(*node_id) == Ok::<u128, TreeError>(*p),
                Err(e) => self.parent_lookup(*node_id) == Err::<u128, TreeError>(e),
            },
    {
        if *node_id == self.root {
            return Err(TreeError::NoParent);
        }
        match self.locations.get(node_id) {
            Some(p) => Ok(p),
            None => Err(TreeError::NodeNotFound),
        }
    }

    pub fn get_parent_node(&self, node_id: &u128) -> (r: Result<&Node, TreeError>)
        requires
            self.wf(),
        ensures
            match r {
                Ok(n) => self.parent_lookup(*node_id) is Ok && *n == self.node_map()[self.parent_lookup(
                    *node_id,
                )->Ok_0],
                Err(e) => self.parent_lookup(*node_id) == Err::<u128, TreeError>(e),
            },
    {
        let parent_id = *self.get_parent_id(node_id)?;
        proof {
            assert(self.parent_map().contains_key(*node_id));
        }
        self.get_node(&parent_id)
    }

    fn compare_parents(&self, node_id1: &u128, node_id2: &u128) -> (r: Result<bool, TreeError>)
        ensures
            match r {
                Ok(b) => self.parent_lookup(*node_id1) is Ok && self.parent_lookup(*node_id2) is Ok
                    && b == (self.parent_lookup(*node_id1) == self.parent_lookup(*node_id2)),
                Err(e) => self.parent_lookup(*node_id1) == Err::<u128, TreeError>(e) || (
                self.parent_lookup(*node_id1) is Ok && self.parent_lookup(*node_id2) == Err::<
                    u128,
                    TreeError,
                >(e)),
            },
    {
        let parent_id1 = self.get_parent_id(node_id1)?;
        let parent_id2 = self.get_parent_id(node_id2)?;
        Ok(*parent_id1 == *parent_id2)
    }

    /// The children of `parent_id`, in display order.
    pub fn get_children_ids(&self, parent_id: &u128) -> (r: Result<&Vec<u128>, TreeError>)
        ensures
            match r {
                Ok(v) => self.container_check(*parent_id) is Ok && v@ == self.children_of(*parent_id),
                Err(e) => self.container_check(*parent_id) == Err::<(), TreeError>(e),
            },
    {
        let c = self.get_container(parent_id)?;
        Ok(&c.order)
    }

    /// Puts `node_id` at place `new_pos` among its siblings, or last where
    /// `new_pos` lies beyond them.
    pub fn move_node(&mut self, node_id: &u128, new_pos: usize) -> (r: Result<(), TreeError>)
        requires
            old(self).wf(),
        ensures
            final(self).wf(),
            match old(self).parent_lookup(*node_id) {
                Ok(p) => r is Ok && final(self).reordered(
                    *old(self),
                    p,
                    moved_to(old(self).children_of(p), *node_id, new_pos as int),
                ),
                Err(e) => r == Err::<(), TreeError>(e) && *final(self) == *old(self),
            },
    {
        let parent_id = *self.get_parent_id(node_id)?;
        let ghost t0 = *self;
        proof {
            assert(t0.parent_map().contains_key(*node_id));
        }
        let mut c = self.take_container(&parent_id);
        proof {
            lemma_moved_to_items(c.order@, *node_id, new_pos as int);
        }
        c.move_order(node_id, new_pos);
        self.nodes.insert(parent_id, Node::Container(c));
        proof {
            assert(self.node_map().dom() =~= t0.node_map().dom());
            lemma_reordered_wf(t0, *self, parent_id);
        }
        Ok(())
    }

    /// Exchanges the places of two children of one container.
    pub fn swap_nodes(&mut self, node_id1: &u128, node_id2: &u128) -> (r: Result<(), TreeError>)
        requires
            old(self).wf(),
        ensures
            final(self).wf(),
            match (old(self).parent_lookup(*node_id1), old(self).parent_lookup(*node_id2)) {
                (Err(e), _) => r == Err::<(), TreeError>(e),
                (Ok(_), Err(e)) => r == Err::<(), TreeError>(e),
                (Ok(p1), Ok(p2)) => if p1 != p2 {
                    r == Err::<(), TreeError>(TreeError::DifferentParents)
                } else if *node_id1 == *node_id2 {
                    r == Err::<(), TreeError>(TreeError::SelfSwap)
                } else {
                    r is Ok && final(self).reordered(
                        *old(self),
                        p1,
                        swapped(old(self).children_of(p1), *node_id1, *node_id2),
                    )
                },
            },
            r is Err ==> *final(self) == *old(self),
    {
        let same = self.compare_parents(node_id1, node_id2)?;
        if !same {
            return Err(TreeError::DifferentParents);
        }
        if *node_id1 == *node_id2 {
            return Err(TreeError::SelfSwap);
        }
        let parent_id = *self.get_parent_id(node_id1)?;
        let ghost t0 = *self;
        proof {
            assert(t0.parent_map().contains_key(*node_id1));
        }
        let mut c = self.take_container(&parent_id);
        proof {
            lemma_swapped_items(c.order@, *node_id1, *node_id2);
        }
        c.swap_order(node_id1, node_id2);
        self.nodes.insert(parent_id, Node::Container(c));
        proof {
            assert(self.node_map().dom() =~= t0.node_map().dom());
            lemma_reordered_wf(t0, *self, parent_id);
        }
        Ok(())
    }

    /// Whether `target` is `from` itself or one of its ancestors.
    pub open spec fn is_self_or_ancestor_of(&self, target: u128, from: u128) -> bool {
        exists|f: nat| reaches_up(self.parent_map(), from, target, f)
    }

    /// Walks up from `from` and reports whether it meets `target`.
    fn is_self_or_ancestor(&self, target: &u128, from: &u128) -> (r: bool)
        requires
            self.wf(),
            self.node_map().contains_key(*from),
        ensures
            r == self.is_self_or_ancestor_of(*target, *from),
    {
        let ghost pm = self.parent_map();
        let ghost root = self.root_id();
        let mut cur: u128 = *from;
        let ghost mut f: nat = choose|f: nat| reaches_up(pm, *from, root, f);
        while cur != *target && cur != self.root
            invariant
                self.wf(),
                pm == self.parent_map(),
                root == self.root_id(),
                self.node_map().contains_key(cur),
                reaches_up(pm, cur, root, f),
                self.is_self_or_ancestor_of(*target, *from) == self.is_self_or_ancestor_of(*target, cur),
            decreases f,
        {
            assert(pm.contains_key(cur));
            let p = match self.locations.get(&cur) {
                Some(p) => *p,
                None => {
                    proof {
                        assert(false);
                    }
                    cur
                },
            };
            proof {
                assert(self.node_map().contains_key(p));
                if self.is_self_or_ancestor_of(*target, cur) {
                    let g = choose|g: nat| reaches_up(pm, cur, *target, g);
                    assert(reaches_up(pm, p, *target, (g - 1) as nat));
                }
                if self.is_self_or_ancestor_of(*target, p) {
                    let g = choose|g: nat| reaches_up(pm, p, *target, g);
                    assert(reaches_up(pm, cur, *target, g + 1));
                }
            }
            cur = p;
            proof {
                f = (f - 1) as nat;
            }
        }
        if cur == *target {
            proof {
                assert(reaches_up(pm, cur, *target, 0));
            }
            true
        } else {
            proof {
                assert forall|g: nat| !reaches_up(pm, cur, *target, g) by {}
            }
            false
        }
    }

    /// `self` is `old` with `node` added as the last child of `parent`.
    pub open spec fn added(&self, old: Tree, parent: u128, node: Node) -> bool {
        &&& self.root_id() == old.root_id()
        &&& self.parent_map() == old.parent_map().insert(node.id(), parent)
        &&& self.node_map().dom() == old.node_map().dom().insert(node.id())
        &&& self.node_map()[node.id()] == node
        &&& self.same_outside(old, set![parent, node.id()])
        &&& self.node_map()[parent].same_but_children(old.node_map()[parent])
        &&& self.children_of(parent) == old.children_of(parent).push(node.id())
    }

    /// Adds `node` as the last child of container `parent_id`.
    pub fn add_node(&mut self, parent_id: &u128, node: Node) -> (r: Result<(), TreeError>)
        requires
            old(self).wf(),
            !old(self).node_map().contains_key(node.id()),
            node.children().len() == 0,
        ensures
            final(self).wf(),
            r == old(self).container_check(*parent_id),
            r is Err ==> *final(self) == *old(self),
            r is Ok ==> final(self).added(*old(self), *parent_id, node),
    {
        let node_id = *node.get_id();
        self.get_container(parent_id)?;
        let ghost t0 = *self;
        let mut c = self.take_container(parent_id);
        c.add_order(&node_id);
        self.nodes.insert(*parent_id, Node::Container(c));
        self.nodes.insert(node_id, node);
        self.locations.insert(node_id, *parent_id);
        proof {
            let t = *self;
            let p = *parent_id;
            assert(t.node_map().dom() =~= t0.node_map().dom().insert(node_id));
            assert(t.node_map().contains_key(t.root_id()));
            assert forall|k: u128| #[trigger] t.node_map().contains_key(k) implies t.node_map()[k].id() == k by {
                if k != node_id && k != p {
                    assert(t0.node_map().contains_key(k));
                }
            }
            assert forall|k: u128| #[trigger] t.parent_map().contains_key(k) implies {
                let q = t.parent_map()[k];
                &&& t.node_map().contains_key(q)
                &&& t.node_map()[q] is Container
                &&& t.children_of(q).contains(k)
            } by {
                if k == node_id {
                    assert(t.children_of(p)[t.children_of(p).len() - 1] == k);
                } else {
                    assert(t0.parent_map().contains_key(k));
                    let q = t0.parent_map()[k];
                    if q == p {
                        let j = choose|j: int| 0 <= j < t0.children_of(p).len() && t0.children_of(p)[j] == k;
                        assert(t.children_of(p)[j] == k);
                    }
                }
            }
            assert forall|d: u128, i: int|
                t.node_map().contains_key(d) && 0 <= i < t.children_of(d).len() implies {
                    &&& t.parent_map().contains_key(#[trigger] t.children_of(d)[i])
                    &&& t.parent_map()[t.children_of(d)[i]] == d
                } by {
                if d != node_id {
                    assert(t0.node_map().contains_key(d));
                    if d != p || i < t0.children_of(p).len() {
                        let y = t0.children_of(d)[i];
                        assert(t0.parent_map().contains_key(y));
                        assert(y != node_id);
                    }
                }
            }
            assert forall|d: u128| #[trigger]
                t.node_map().contains_key(d) implies t.children_of(d).no_duplicates() by {
                if d == p {
                    assert(t0.children_of(p).no_duplicates());
                    assert forall|i: int| 0 <= i < t0.children_of(p).len() implies t0.children_of(p)[i] != node_id by {
                        assert(t0.parent_map().contains_key(t0.children_of(p)[i]));
                    }
                } else if d != node_id {
                    assert(t0.node_map().contains_key(d));
                }
            }
            assert forall|k: u128|
                #![trigger t.node_map().contains_key(k)]
                #![trigger t.parent_map().contains_key(k)]
                t.node_map().contains_key(k) <==> (k == t.root_id() || t.parent_map().contains_key(k)) by {
                assert(t0.node_map().contains_key(k) <==> (k == t0.root_id() || t0.parent_map().contains_key(k)));
            }
            assert forall|k: u128| #[trigger] t.node_map().contains_key(k) implies exists|f: nat|
                reaches_up(t.parent_map(), k, t.root_id(), f) by {
                let start = if k == node_id { p } else { k };
                assert(t0.node_map().contains_key(start));
                let f = choose|f: nat| reaches_up(t0.parent_map(), start, t0.root_id(), f);
                lemma_reaches_split(t0.parent_map(), t.parent_map(), node_id, start, t0.root_id(), f);
                if reaches_up(t.parent_map(), start, node_id, f) {
                    lemma_reaches_split(t.parent_map(), t0.parent_map(), node_id, start, node_id, f);
                    lemma_reaches_in_tree(t0, start, node_id, f);
                }
                if k == node_id {
                    assert(reaches_up(t.parent_map(), k, t.root_id(), f + 1));
                }
            }
        }
        Ok(())
    }

    /// Removes `node_id`, which must be an entry or an empty container.
    pub fn remove_node(&mut self, node_id: &u128) -> (r: Result<(), TreeError>)
        requires
            old(self).wf(),
        ensures
            final(self).wf(),
            r == match old(self).parent_lookup(*node_id) {
                Err(e) => Err(e),
                Ok(p) => if old(self).children_of(*node_id).len() > 0 {
                    Err(TreeError::HasChildren)
                } else {
                    Ok(())
                },
            },
            r is Err ==> *final(self) == *old(self),
            r is Ok ==> {
                let p = old(self).parent_lookup(*node_id)->Ok_0;
                &&& final(self).root_id() == old(self).root_id()
                &&& final(self).parent_map() == old(self).parent_map().remove(*node_id)
                &&& final(self).node_map().dom() == old(self).node_map().dom().remove(*node_id)
                &&& final(self).same_outside(*old(self), set![p, *node_id])
                &&& final(self).node_map()[p].same_but_children(old(self).node_map()[p])
                &&& final(self).children_of(p) == without(old(self).children_of(p), *node_id)
            },
    {
        let parent_id = *self.get_parent_id(node_id)?;
        let ghost t0 = *self;
        proof {
            assert(t0.parent_map().contains_key(*node_id));
        }
        match self.nodes.get(node_id) {
            Some(Node::Container(c)) => {
                if c.order.len() > 0 {
                    return Err(TreeError::HasChildren);
                }
            },
            _ => {},
        }
        let id = *node_id;
        let p = parent_id;
        proof {
            assert(t0.children_of(p).contains(id));
            assert(id != p);
        }
        let mut c = self.take_container(&parent_id);
        c.remove_order(node_id);
        self.nodes.insert(parent_id, Node::Container(c));
        self.nodes.remove(node_id);
        self.locations.remove(node_id);
        proof {
            let t = *self;
            assert(t.node_map().dom() =~= t0.node_map().dom().remove(id));
            assert(t.node_map().contains_key(t.root_id()));
            lemma_without_no_duplicates(t0.children_of(p), id);
            assert forall|k: u128| #[trigger] t.node_map().contains_key(k) implies t.node_map()[k].id() == k by {
                assert(t0.node_map().contains_key(k));
            }
            assert forall|k: u128| #[trigger] t.parent_map().contains_key(k) implies {
                let q = t.parent_map()[k];
                &&& t.node_map().contains_key(q)
                &&& t.node_map()[q] is Container
                &&& t.children_of(q).contains(k)
            } by {
                assert(t0.parent_map().contains_key(k));
                let q = t0.parent_map()[k];
                let j = choose|j: int| 0 <= j < t0.children_of(q).len() && t0.children_of(q)[j] == k;
                if q == id {
                    assert(t0.children_of(id).len() > 0);
                }
                if q == p {
                    lemma_without_contains(t0.children_of(p), id, k);
                }
            }
            assert forall|d: u128, i: int|
                t.node_map().contains_key(d) && 0 <= i < t.children_of(d).len() implies {
                    &&& t.parent_map().contains_key(#[trigger] t.children_of(d)[i])
                    &&& t.parent_map()[t.children_of(d)[i]] == d
                } by {
                assert(t0.node_map().contains_key(d));
                let y = t.children_of(d)[i];
                if d == p {
                    assert(t.children_of(p).contains(y));
                    lemma_without_contains(t0.children_of(p), id, y);
                    let j = choose|j: int| 0 <= j < t0.children_of(p).len() && t0.children_of(p)[j] == y;
                    assert(t0.parent_map().contains_key(t0.children_of(p)[j]));
                } else {
                    assert(t0.parent_map().contains_key(t0.children_of(d)[i]));
                }
            }
            assert forall|d: u128| #[trigger]
                t.node_map().contains_key(d) implies t.children_of(d).no_duplicates() by {
                assert(t0.node_map().contains_key(d));
            }
            assert forall|k: u128|
                #![trigger t.node_map().contains_key(k)]
                #![trigger t.parent_map().contains_key(k)]
                t.node_map().contains_key(k) <==> (k == t.root_id() || t.parent_map().contains_key(k)) by {
                assert(t0.node_map().contains_key(k) <==> (k == t0.root_id() || t0.parent_map().contains_key(k)));
            }
            assert forall|k: u128| #[trigger] t.node_map().contains_key(k) implies exists|f: nat|
                reaches_up(t.parent_map(), k, t.root_id(), f) by {
                assert(t0.node_map().contains_key(k));
                let f = choose|f: nat| reaches_up(t0.parent_map(), k, t0.root_id(), f);
                lemma_reaches_split(t0.parent_map(), t.parent_map(), id, k, t0.root_id(), f);
                if reaches_up(t.parent_map(), k, id, f) {
                    lemma_reaches_in_tree(t, k, id, f);
                }
            }
        }
        Ok(())
    }

    /// Moves `node_id` to the end of container `new_parent_id`. Refused where the
    /// new parent is the node itself or lies below it.
    pub fn change_parent(&mut self, new_parent_id: &u128, node_id: &u128) -> (r: Result<
        (),
        TreeError,
    >)
        requires
            old(self).wf(),
        ensures
            final(self).wf(),
            r == match old(self).parent_lookup(*node_id) {
                Err(e) => Err(e),
                Ok(p) => if p == *new_parent_id {
                    Err(TreeError::AlreadyInContainer)
                } else if old(self).container_check(*new_parent_id) is Err {
                    old(self).container_check(*new_parent_id)
                } else if old(self).is_self_or_ancestor_of(*node_id, *new_parent_id) {
                    Err(TreeError::WouldCreateCycle)
                } else {
                    Ok(())
                },
            },
            r is Err ==> *final(self) == *old(self),
            r is Ok ==> {
                let p = old(self).parent_lookup(*node_id)->Ok_0;
                let q = *new_parent_id;
                &&& final(self).root_id() == old(self).root_id()
                &&& final(self).parent_map() == old(self).parent_map().insert(*node_id, q)
                &&& final(self).node_map().dom() == old(self).node_map().dom()
                &&& final(self).same_outside(*old(self), set![p, q])
                &&& final(self).node_map()[p].same_but_children(old(self).node_map()[p])
                &&& final(self).node_map()[q].same_but_children(old(self).node_map()[q])
                &&& final(self).children_of(p) == without(old(self).children_of(p), *node_id)
                &&& final(self).children_of(q) == old(self).children_of(q).push(*node_id)
            },
    {
        let parent_id = *self.get_parent_id(node_id)?;
        if parent_id == *new_parent_id {
            return Err(TreeError::AlreadyInContainer);
        }
        self.get_container(new_parent_id)?;
        if self.is_self_or_ancestor(node_id, new_parent_id) {
            return Err(TreeError::WouldCreateCycle);
        }
        let ghost t0 = *self;
        let id = *node_id;
        let p = parent_id;
        let q = *new_parent_id;
        proof {
            assert(t0.parent_map().contains_key(id));
            assert(reaches_up(t0.parent_map(), q, q, 0));
            assert(id != q);
            assert forall|i: int| 0 <= i < t0.children_of(q).len() implies t0.children_of(q)[i] != id by {
                assert(t0.parent_map().contains_key(t0.children_of(q)[i]));
            }
        }
        let mut old_parent = self.take_container(&parent_id);
        old_parent.remove_order(node_id);
        self.nodes.insert(parent_id, Node::Container(old_parent));
        let mut new_parent = self.take_container(new_parent_id);
        new_parent.add_order(node_id);
        self.nodes.insert(*new_parent_id, Node::Container(new_parent));
        self.locations.insert(*node_id, *new_parent_id);
        proof {
            let t = *self;
            assert(t.node_map().dom() =~= t0.node_map().dom());
            assert(t.node_map().contains_key(t.root_id()));
            lemma_without_no_duplicates(t0.children_of(p), id);
            assert forall|k: u128| #[trigger] t.node_map().contains_key(k) implies t.node_map()[k].id() == k by {
                assert(t0.node_map().contains_key(k));
            }
            assert forall|k: u128| #[trigger] t.parent_map().contains_key(k) implies {
                let r = t.parent_map()[k];
                &&& t.node_map().contains_key(r)
                &&& t.node_map()[r] is Container
                &&& t.children_of(r).contains(k)
            } by {
                if k == id {
                    assert(t.children_of(q)[t.children_of(q).len() - 1] == k);
                } else {
                    assert(t0.parent_map().contains_key(k));
                    let r = t0.parent_map()[k];
                    let j = choose|j: int| 0 <= j < t0.children_of(r).len() && t0.children_of(r)[j] == k;
                    if r == p {
                        lemma_without_contains(t0.children_of(p), id, k);
                    } else if r == q {
                        assert(t.children_of(q)[j] == k);
                    }
                }
            }
            assert forall|d: u128, i: int|
                t.node_map().contains_key(d) && 0 <= i < t.children_of(d).len() implies {
                    &&& t.parent_map().contains_key(#[trigger] t.children_of(d)[i])
                    &&& t.parent_map()[t.children_of(d)[i]] == d
                } by {
                assert(t0.node_map().contains_key(d));
                let y = t.children_of(d)[i];
                if d == p {
                    assert(t.children_of(p).contains(y));
                    lemma_without_contains(t0.children_of(p), id, y);
                    let j = choose|j: int| 0 <= j < t0.children_of(p).len() && t0.children_of(p)[j] == y;
                    assert(t0.parent_map().contains_key(t0.children_of(p)[j]));
                } else if d == q {
                    if i < t0.children_of(q).len() {
                        assert(t0.parent_map().contains_key(t0.children_of(q)[i]));
                    }
                } else {
                    assert(t0.parent_map().contains_key(t0.children_of(d)[i]));
                }
            }
            assert forall|d: u128| #[trigger]
                t.node_map().contains_key(d) implies t.children_of(d).no_duplicates() by {
                assert(t0.node_map().contains_key(d));
            }
            assert forall|k: u128|
                #![trigger t.node_map().contains_key(k)]
                #![trigger t.parent_map().contains_key(k)]
                t.node_map().contains_key(k) <==> (k == t.root_id() || t.parent_map().contains_key(k)) by {
                assert(t0.node_map().contains_key(k) <==> (k == t0.root_id() || t0.parent_map().contains_key(k)));
            }
            assert(t0.node_map().contains_key(q));
            let fq = choose|f: nat| reaches_up(t0.parent_map(), q, t0.root_id(), f);
            lemma_reaches_split(t0.parent_map(), t.parent_map(), id, q, t0.root_id(), fq);
            if reaches_up(t.parent_map(), q, id, fq) {
                lemma_reaches_split(t.parent_map(), t0.parent_map(), id, q, id, fq);
                assert(t0.is_self_or_ancestor_of(id, q));
            }
            assert(reaches_up(t.parent_map(), id, t.root_id(), fq + 1));
            assert forall|k: u128| #[trigger] t.node_map().contains_key(k) implies exists|f: nat|
                reaches_up(t.parent_map(), k, t.root_id(), f) by {
                assert(t0.node_map().contains_key(k));
                let f = choose|f: nat| reaches_up(t0.parent_map(), k, t0.root_id(), f);
                lemma_reaches_split(t0.parent_map(), t.parent_map(), id, k, t0.root_id(), f);
                if reaches_up(t.parent_map(), k, id, f) {
                    lemma_reaches_trans(t.parent_map(), k, id, t.root_id(), f, fq + 1);
                }
            }
        }
        Ok(())
    }

    /// The state of entry `id`.
    pub open spec fn state_of(&self, id: u128) -> EntryState {
        self.node_map()[id]->Entry_0.state()
    }

    /// `self` is `old` with entry `id` now in state `st`.
    pub open spec fn restated(&self, old: Tree, id: u128, st: EntryState) -> bool {
        &&& self.root_id() == old.root_id()
        &&& self.parent_map() == old.parent_map()
        &&& self.node_map().dom() == old.node_map().dom()
        &&& self.same_outside(old, set![id])
        &&& self.node_map()[id] is Entry
        &&& self.node_map()[id].id() == old.node_map()[id].id()
        &&& self.node_map()[id].name() == old.node_map()[id].name()
        &&& self.node_map()[id].desc() == old.node_map()[id].desc()
        &&& self.state_of(id) == st
    }

    pub fn entry_state(&self, node_id: &u128) -> (r: Result<EntryState, TreeError>)
        ensures
            match self.entry_check(*node_id) {
                Ok(_) => r == Ok::<EntryState, TreeError>(self.state_of(*node_id)),
                Err(e) => r == Err::<EntryState, TreeError>(e),
            },
    {
        let e = self.get_entry(node_id)?;
        Ok(e.state)
    }

    /// Puts entry `node_id` in state `state`.
    pub fn set_entry_state(&mut self, node_id: &u128, state: &EntryState) -> (r: Result<
        (),
        TreeError,
    >)
        requires
            old(self).wf(),
        ensures
            final(self).wf(),
            r == old(self).entry_check(*node_id),
            r is Err ==> *final(self) == *old(self),
            r is Ok ==> final(self).restated(*old(self), *node_id, *state),
    {
        self.get_entry(node_id)?;
        self.put_state(node_id, *state);
        Ok(())
    }

    /// Moves entry `node_id` one step forward on the ring and returns its new state.
    pub fn entry_state_next(&mut self, node_id: &u128) -> (r: Result<EntryState, TreeError>)
        requires
            old(self).wf(),
        ensures
            final(self).wf(),
            match old(self).entry_check(*node_id) {
                Ok(_) => r == Ok::<EntryState, TreeError>(state_after(old(self).state_of(*node_id)))
                    && final(self).restated(*old(self), *node_id, r->Ok_0),
                Err(e) => r == Err::<EntryState, TreeError>(e) && *final(self) == *old(self),
            },
    {
        let next = self.get_entry(node_id)?.state.next();
        self.put_state(node_id, next);
        Ok(next)
    }

    /// Moves entry `node_id` one step back on the ring and returns its new state.
    pub fn entry_state_prev(&mut self, node_id: &u128) -> (r: Result<EntryState, TreeError>)
        requires
            old(self).wf(),
        ensures
            final(self).wf(),
            match old(self).entry_check(*node_id) {
                Ok(_) => r == Ok::<EntryState, TreeError>(state_before(old(self).state_of(*node_id)))
                    && final(self).restated(*old(self), *node_id, r->Ok_0),
                Err(e) => r == Err::<EntryState, TreeError>(e) && *final(self) == *old(self),
            },
    {
        let prev = self.get_entry(node_id)?.state.prev();
        self.put_state(node_id, prev);
        Ok(prev)
    }

    /// `self` is `old` with node `id` changed at most in its name and
    /// description: same identifier, kind, children and (for an entry) state.
    pub open spec fn relabeled(&self, old: Tree, id: u128) -> bool {
        &&& self.root_id() == old.root_id()
        &&& self.parent_map() == old.parent_map()
        &&& self.node_map().dom() == old.node_map().dom()
        &&& self.same_outside(old, set![id])
        &&& self.node_map()[id].id() == old.node_map()[id].id()
        &&& self.children_of(id) == old.children_of(id)
        &&& (self.node_map()[id] is Entry) == (old.node_map()[id] is Entry)
        &&& self.node_map()[id] is Entry ==> self.state_of(id) == old.state_of(id)
    }

    /// Renames node `node_id`.
    pub fn set_node_name(&mut self, node_id: &u128, name: String) -> (r: Result<(), TreeError>)
        requires
            old(self).wf(),
        ensures
            final(self).wf(),
            r is Ok <==> old(self).node_map().contains_key(*node_id),
            r is Err ==> r == Err::<(), TreeError>(TreeError::NodeNotFound) && *final(self) == *old(
                self,
            ),
            r is Ok ==> {
                &&& final(self).relabeled(*old(self), *node_id)
                &&& final(self).node_map()[*node_id].name() == name@
                &&& final(self).node_map()[*node_id].desc() == old(self).node_map()[*node_id].desc()
            },
    {
        if !self.nodes.contains_key(node_id) {
            return Err(TreeError::NodeNotFound);
        }
        let ghost t0 = *self;
        match self.nodes.remove(node_id) {
            Some(mut n) => {
                n.set_name(name);
                self.nodes.insert(*node_id, n);
                proof {
                    lemma_relabeled_wf(t0, *self, *node_id);
                }
                Ok(())
            },
            None => {
                proof {
                    assert(false);
                }
                Err(TreeError::NodeNotFound)
            },
        }
    }

    /// Changes the description of node `node_id`.
    pub fn set_node_desc(&mut self, node_id: &u128, desc: String) -> (r: Result<(), TreeError>)
        requires
            old(self).wf(),
        ensures
            final(self).wf(),
            r is Ok <==> old(self).node_map().contains_key(*node_id),
            r is Err ==> r == Err::<(), TreeError>(TreeError::NodeNotFound) && *final(self) == *old(
                self,
            ),
            r is Ok ==> {
                &&& final(self).relabeled(*old(self), *node_id)
                &&& final(self).node_map()[*node_id].desc() == desc@
                &&& final(self).node_map()[*node_id].name() == old(self).node_map()[*node_id].name()
            },
    {
        if !self.nodes.contains_key(node_id) {
            return Err(TreeError::NodeNotFound);
        }
        let ghost t0 = *self;
        match self.nodes.remove(node_id) {
            Some(mut n) => {
                n.set_desc(desc);
                self.nodes.insert(*node_id, n);
                proof {
                    lemma_relabeled_wf(t0, *self, *node_id);
                }
                Ok(())
            },
            None => {
                proof {
                    assert(false);
                }
                Err(TreeError::NodeNotFound)
            },
        }
    }

    /// Stores `state` in entry `id`.
    fn put_state(&mut self, id: &u128, state: EntryState)
        requires
            old(self).wf(),
            old(self).entry_check(*id) is Ok,
        ensures
            final(self).wf(),
            final(self).restated(*old(self), *id, state),
    {
        let ghost t0 = *self;
        match self.nodes.remove(id) {
            Some(Node::Entry(mut e)) => {
                e.state = state;
                self.nodes.insert(*id, Node::Entry(e));
            },
            _ => {
                proof {
                    assert(false);
                }
            },
        }
        proof {
            let t = *self;
            assert(t.node_map().dom() =~= t0.node_map().dom());
            assert(t.node_map().contains_key(t.root_id()));
            assert forall|k: u128| #[trigger] t.node_map().contains_key(k) implies t.node_map()[k].id() == k by {
                assert(t0.node_map().contains_key(k));
            }
            assert forall|k: u128| #[trigger] t.parent_map().contains_key(k) implies {
                let q = t.parent_map()[k];
                &&& t.node_map().contains_key(q)
                &&& t.node_map()[q] is Container
                &&& t.children_of(q).contains(k)
            } by {
                assert(t0.parent_map().contains_key(k));
            }
            assert forall|d: u128, i: int|
                t.node_map().contains_key(d) && 0 <= i < t.children_of(d).len() implies {
                    &&& t.parent_map().contains_key(#[trigger] t.children_of(d)[i])
                    &&& t.parent_map()[t.children_of(d)[i]] == d
                } by {
                assert(t0.node_map().contains_key(d));
                assert(t0.parent_map().contains_key(t0.children_of(d)[i]));
            }
            assert forall|d: u128| #[trigger]
                t.node_map().contains_key(d) implies t.children_of(d).no_duplicates() by {
                assert(t0.node_map().contains_key(d));
            }
            assert forall|k: u128|
                #![trigger t.node_map().contains_key(k)]
                #![trigger t.parent_map().contains_key(k)]
                t.node_map().contains_key(k) <==> (k == t.root_id() || t.parent_map().contains_key(k)) by {
                assert(t0.node_map().contains_key(k) <==> (k == t0.root_id() || t0.parent_map().contains_key(k)));
            }
        }
    }

    pub fn get_root_id(&self) -> (r: &u128)
        ensures
            *r == self.root_id(),
    {
        &self.root
    }

    /// How many nodes the tree holds.
    pub fn node_count(&self) -> (r: usize)
        ensures
            r == self.node_map().len(),
    {
        self.nodes.len()
    }

    /// Takes container `id` out of the node map, to be put back after a change.
    fn take_container(&mut self, id: &u128) -> (c: Container)
        requires
            old(self).node_map().contains_key(*id),
            old(self).node_map()[*id] is Container,
        ensures
            Node::Container(c) == old(self).node_map()[*id],
            final(self).root == old(self).root,
            final(self).locations@ == old(self).locations@,
            final(self).nodes@ == old(self).nodes@.remove(*id),
    {
        match self.nodes.remove(id) {
            Some(Node::Container(c)) => c,
            _ => {
                proof {
                    assert(false);
                }
                Container { meta: NodeMeta { id: 0, name: String::new(), desc: String::new() }, order: Vec::new() }
            },
        }
    }
}

/// A walk up from a node of the tree stays among its nodes.
proof fn lemma_reaches_in_tree(t: Tree, from: u128, target: u128, f: nat)
    requires
        t.parents_ok(),
        t.node_map().contains_key(from),
        reaches_up(t.parent_map(), from, target, f),
    ensures
        t.node_map().contains_key(target),
    decreases f,
{
    if from != target {
        assert(t.parent_map().contains_key(from));
        lemma_reaches_in_tree(t, t.parent_map()[from], target, (f - 1) as nat);
    }
}

/// A tree whose only change is the name or description of one node keeps the
/// invariant.
proof fn lemma_relabeled_wf(old: Tree, new: Tree, c: u128)
    requires
        old.wf(),
        old.node_map().contains_key(c),
        new.relabeled(old, c),
    ensures
        new.wf(),
{
    assert forall|k: u128| #[trigger] new.node_map().contains_key(k) implies new.node_map()[k].id() == k by {
        assert(old.node_map().contains_key(k));
    }
    assert forall|k: u128| #[trigger] new.parent_map().contains_key(k) implies {
        let p = new.parent_map()[k];
        &&& new.node_map().contains_key(p)
        &&& new.node_map()[p] is Container
        &&& new.children_of(p).contains(k)
    } by {
        assert(old.parent_map().contains_key(k));
    }
    assert forall|d: u128, i: int|
        new.node_map().contains_key(d) && 0 <= i < new.children_of(d).len() implies {
            &&& new.parent_map().contains_key(#[trigger] new.children_of(d)[i])
            &&& new.parent_map()[new.children_of(d)[i]] == d
        } by {
        assert(old.node_map().contains_key(d));
        assert(old.parent_map().contains_key(old.children_of(d)[i]));
    }
    assert forall|d: u128| #[trigger]
        new.node_map().contains_key(d) implies new.children_of(d).no_duplicates() by {
        assert(old.node_map().contains_key(d));
    }
    assert forall|k: u128|
        #![trigger new.node_map().contains_key(k)]
        #![trigger new.parent_map().contains_key(k)]
        new.node_map().contains_key(k) <==> (k == new.root_id() || new.parent_map().contains_key(k)) by {
        assert(old.node_map().contains_key(k) <==> (k == old.root_id() || old.parent_map().contains_key(k)));
    }
    assert forall|k: u128| #[trigger] new.node_map().contains_key(k) implies exists|f: nat|
        reaches_up(new.parent_map(), k, new.root_id(), f) by {
        assert(old.node_map().contains_key(k));
    }
}

/// A tree whose only change is the order of one container's children, over the
/// same children without duplicates, keeps the invariant.
proof fn lemma_reordered_wf(old: Tree, new: Tree, c: u128)
    requires
        old.wf(),
        old.node_map().contains_key(c),
        new.reordered(old, c, new.children_of(c)),
        new.children_of(c).no_duplicates(),
        forall|y: u128| new.children_of(c).contains(y) <==> old.children_of(c).contains(y),
    ensures
        new.wf(),
{
    assert(new.node_map().contains_key(c));
    assert forall|k: u128| #[trigger] new.node_map().contains_key(k) implies new.node_map()[k].id() == k by {
        assert(old.node_map().contains_key(k));
    }
    assert forall|k: u128| #[trigger] new.parent_map().contains_key(k) implies {
        let p = new.parent_map()[k];
        &&& new.node_map().contains_key(p)
        &&& new.node_map()[p] is Container
        &&& new.children_of(p).contains(k)
    } by {
        assert(old.parent_map().contains_key(k));
    }
    assert forall|d: u128, i: int|
        new.node_map().contains_key(d) && 0 <= i < new.children_of(d).len() implies {
            &&& new.parent_map().contains_key(#[trigger] new.children_of(d)[i])
            &&& new.parent_map()[new.children_of(d)[i]] == d
        } by {
        if d == c {
            let y = new.children_of(c)[i];
            assert(new.children_of(c).contains(y));
            let j = choose|j: int| 0 <= j < old.children_of(c).len() && old.children_of(c)[j] == y;
            assert(old.parent_map().contains_key(old.children_of(c)[j]));
        } else {
            assert(old.node_map().contains_key(d));
            assert(old.parent_map().contains_key(old.children_of(d)[i]));
        }
    }
    assert forall|d: u128| #[trigger]
        new.node_map().contains_key(d) implies new.children_of(d).no_duplicates() by {
        assert(old.node_map().contains_key(d));
    }
    assert forall|k: u128|
        #![trigger new.node_map().contains_key(k)]
        #![trigger new.parent_map().contains_key(k)]
        new.node_map().contains_key(k) <==> (k == new.root_id() || new.parent_map().contains_key(k)) by {
        assert(old.node_map().contains_key(k) <==> (k == old.root_id() || old.parent_map().contains_key(k)));
    }
}

/// Right after `add_node(parent, node)` succeeds, `get_parent_id` of the new
/// node gives `parent`, and `get_children_ids(parent)` lists the new node
/// exactly once.
pub proof fn lemma_add_node_round_trip(old: Tree, new: Tree, parent: u128, node: Node)
    requires
        old.wf(),
        !old.node_map().contains_key(node.id()),
        new.wf(),
        new.added(old, parent, node),
    ensures
        new.parent_lookup(node.id()) == Ok::<u128, TreeError>(parent),
        new.container_check(parent) is Ok,
        new.children_of(parent).contains(node.id()),
        new.children_of(parent).no_duplicates(),
{
    let id = node.id();
    assert(new.parent_map().contains_key(id));
    assert(id != new.root_id());
    assert(new.node_map().contains_key(parent));
}

} // verus!
