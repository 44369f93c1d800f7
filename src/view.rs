use std::collections::HashSet;
use vstd::prelude::*;

use crate::data::{reaches_up, Tree, TreeError};

verus! {

broadcast use vstd::std_specs::hash::group_hash_axioms;

/// The screens of the front end.
#[derive(Clone, Copy, Debug, PartialEq, Eq, Structural)]
pub enum AppScreen {
    TreeSelect,
    TreeView,
    Settings,
}

/// What the front end keeps between two frames.
pub struct AppState {
    current_screen: AppScreen,
    trees: Vec<u128>,
    selected_tree: Option<u128>,
    tree_view: TreeViewState,
}

/// The selection, the collapsed containers and the scroll offset of one tree's view.
pub struct TreeViewState {
    selected: Option<u128>,
    collapsed: HashSet<u128>,
    pub scroll_offset: usize,
}

impl TreeViewState {
    pub closed spec fn selection(&self) -> Option<u128> {
        self.selected
    }

    pub closed spec fn collapsed_set(&self) -> Set<u128> {
        self.collapsed@
    }

    pub closed spec fn scroll(&self) -> usize {
        self.scroll_offset
    }

    /// A view with nothing selected, nothing collapsed and no scrolling.
    pub fn new() -> (r: TreeViewState)
        ensures
            r.selection() is None,
            r.collapsed_set() == Set::<u128>::empty(),
            r.scroll() == 0,
    {
        TreeViewState { selected: None, collapsed: HashSet::new(), scroll_offset: 0 }
    }

    pub fn get_selected(&self) -> (r: &Option<u128>)
        ensures
            *r == self.selection(),
    {
        &self.selected
    }

    pub fn select(&mut self, id: &u128) -> (r: Result<(), TreeError>)
        ensures
            r is Ok,
            final(self).selection() == Some(*id),
            final(self).collapsed_set() == old(self).collapsed_set(),
            final(self).scroll() == old(self).scroll(),
    {
        self.selected = Some(*id);
        Ok(())
    }

    pub fn deselect(&mut self) -> (r: Result<(), TreeError>)
        ensures
            r is Ok,
            final(self).selection() is None,
            final(self).collapsed_set() == old(self).collapsed_set(),
            final(self).scroll() == old(self).scroll(),
    {
        self.selected = None;
        Ok(())
    }

    pub fn get_collapsed(&self) -> (r: Result<&HashSet<u128>, TreeError>)
        ensures
            r is Ok && r->Ok_0@ == self.collapsed_set(),
    {
        Ok(&self.collapsed)
    }

    /// Collapses `id`, which must name a container of `tree`.
    pub fn add_collapsed(&mut self, tree: &Tree, id: &u128) -> (r: Result<(), TreeError>)
        ensures
            r == tree.container_check(*id),
            final(self).collapsed_set() == if r is Ok {
                old(self).collapsed_set().insert(*id)
            } else {
                old(self).collapsed_set()
            },
            final(self).selection() == old(self).selection(),
            final(self).scroll() == old(self).scroll(),
    {
        if tree.get_node(id)?.is_entry() {
            return Err(TreeError::WrongKind);
        }
        self.collapsed.insert(*id);
        Ok(())
    }

    pub fn remove_collapsed(&mut self, id: &u128) -> (r: Result<(), TreeError>)
        ensures
            r is Ok,
            final(self).collapsed_set() == old(self).collapsed_set().remove(*id),
            final(self).selection() == old(self).selection(),
            final(self).scroll() == old(self).scroll(),
    {
        self.collapsed.remove(id);
        Ok(())
    }

    pub fn is_collapsed(&self, id: &u128) -> (r: Result<bool, TreeError>)
        ensures
            r == Ok::<bool, TreeError>(self.collapsed_set().contains(*id)),
    {
        Ok(self.collapsed.contains(id))
    }
}

/// The rows shown from node `id` at indentation `depth`: the node itself, then,
/// unless it is collapsed, the rows of each child one level deeper, in order.
/// `fuel` bounds the nesting followed; a tree of n nodes needs at most n.
pub open spec fn visible(
    t: Tree,
    collapsed: Set<u128>,
    id: u128,
    depth: usize,
    fuel: nat,
) -> Seq<(u128, usize)>
    decreases fuel, 0nat,
{
    if fuel == 0 {
        Seq::empty()
    } else if collapsed.contains(id) {
        seq![(id, depth)]
    } else {
        seq![(id, depth)] + visible_all(
            t,
            collapsed,
            t.children_of(id),
            (depth + 1) as usize,
            (fuel - 1) as nat,
        )
    }
}

/// The rows of each node of `ids` in turn.
pub open spec fn visible_all(
    t: Tree,
    collapsed: Set<u128>,
    ids: Seq<u128>,
    depth: usize,
    fuel: nat,
) -> Seq<(u128, usize)>
    decreases fuel, ids.len() + 1,
{
    if ids.len() == 0 {
        Seq::empty()
    } else {
        visible_all(t, collapsed, ids.drop_last(), depth, fuel) + visible(
            t,
            collapsed,
            ids.last(),
            depth,
            fuel,
        )
    }
}

/// How many parent links a walk from `from` takes to meet `target`, given
/// `fuel` links that suffice.
spec fn steps_up(pm: Map<u128, u128>, from: u128, target: u128, fuel: nat) -> nat
    decreases fuel,
{
    if from == target || fuel == 0 || !pm.contains_key(from) {
        0
    } else {
        1 + steps_up(pm, pm[from], target, (fuel - 1) as nat)
    }
}

/// The number of parent links from node `k` up to the root.
spec fn rank(t: Tree, k: u128) -> nat {
    steps_up(
        t.parent_map(),
        k,
        t.root_id(),
        choose|f: nat| reaches_up(t.parent_map(), k, t.root_id(), f),
    )
}

/// `k` taken `i` links up.
spec fn up(pm: Map<u128, u128>, k: u128, i: nat) -> u128
    decreases i,
{
    if i == 0 {
        k
    } else {
        pm[up(pm, k, (i - 1) as nat)]
    }
}

proof fn lemma_steps_fuel(pm: Map<u128, u128>, from: u128, target: u128, f1: nat, f2: nat)
    requires
        reaches_up(pm, from, target, f1),
        reaches_up(pm, from, target, f2),
    ensures
        steps_up(pm, from, target, f1) == steps_up(pm, from, target, f2),
    decreases f1,
{
    if from != target {
        lemma_steps_fuel(pm, pm[from], target, (f1 - 1) as nat, (f2 - 1) as nat);
    }
}

/// The root has rank 0; any other node has rank one more than its parent.
proof fn lemma_rank_step(t: Tree, k: u128)
    requires
        t.wf(),
        t.node_map().contains_key(k),
    ensures
        k == t.root_id() ==> rank(t, k) == 0,
        k != t.root_id() ==> t.parent_map().contains_key(k) && t.node_map().contains_key(
            t.parent_map()[k],
        ) && rank(t, k) == rank(t, t.parent_map()[k]) + 1,
{
    let pm = t.parent_map();
    let root = t.root_id();
    let f = choose|f: nat| reaches_up(pm, k, root, f);
    if k != root {
        assert(pm.contains_key(k));
        let p = pm[k];
        assert(t.node_map().contains_key(p));
        assert(reaches_up(pm, p, root, (f - 1) as nat));
        let fp = choose|g: nat| reaches_up(pm, p, root, g);
        lemma_steps_fuel(pm, p, root, (f - 1) as nat, fp);
    }
}

/// Walking up `i <= rank(k)` links from `k` lands on a node of rank `rank(k) - i`.
proof fn lemma_up_rank(t: Tree, k: u128, i: nat)
    requires
        t.wf(),
        t.node_map().contains_key(k),
        i <= rank(t, k),
    ensures
        t.node_map().contains_key(up(t.parent_map(), k, i)),
        rank(t, up(t.parent_map(), k, i)) == rank(t, k) - i,
    decreases i,
{
    if i > 0 {
        lemma_up_rank(t, k, (i - 1) as nat);
        let x = up(t.parent_map(), k, (i - 1) as nat);
        lemma_rank_step(t, x);
    }
}

/// No rank reaches the number of nodes.
proof fn lemma_rank_bound(t: Tree, k: u128)
    requires
        t.wf(),
        t.node_map().contains_key(k),
    ensures
        rank(t, k) < t.node_map().len(),
{
    let r = rank(t, k);
    let pm = t.parent_map();
    let idx = vstd::set_lib::set_int_range(0, r as int + 1);
    let g = |i: int| up(pm, k, i as nat);
    vstd::set_lib::lemma_int_range(0, r as int + 1);
    assert forall|i: int, j: int| idx.contains(i) && idx.contains(j) && #[trigger] g(i) == #[trigger] g(
        j,
    ) implies i == j by {
        lemma_up_rank(t, k, i as nat);
        lemma_up_rank(t, k, j as nat);
    }
    assert(vstd::relations::injective_on(g, idx));
    vstd::set_lib::lemma_map_size(idx, idx.map(g), g);
    assert forall|x: u128| idx.map(g).contains(x) implies t.node_map().dom().contains(x) by {
        let i = choose|i: int| idx.contains(i) && g(i) == x;
        lemma_up_rank(t, k, i as nat);
    }
    vstd::set_lib::lemma_len_subset(idx.map(g), t.node_map().dom());
}

proof fn lemma_visible_stable(
    t: Tree,
    collapsed: Set<u128>,
    x: u128,
    depth: usize,
    f1: nat,
    f2: nat,
)
    requires
        t.wf(),
        t.node_map().contains_key(x),
        f1 + rank(t, x) >= t.node_map().len(),
        f2 + rank(t, x) >= t.node_map().len(),
    ensures
        visible(t, collapsed, x, depth, f1) == visible(t, collapsed, x, depth, f2),
    decreases t.node_map().len() - rank(t, x), 0nat,
{
    lemma_rank_bound(t, x);
    if !collapsed.contains(x) {
        let cs = t.children_of(x);
        assert forall|i: int| 0 <= i < cs.len() implies t.node_map().contains_key(cs[i]) && rank(
            t,
            cs[i],
        ) == rank(t, x) + 1 by {
            assert(t.parent_map().contains_key(t.children_of(x)[i]));
            lemma_rank_step(t, cs[i]);
        }
        lemma_visible_all_stable(
            t,
            collapsed,
            cs,
            (depth + 1) as usize,
            (f1 - 1) as nat,
            (f2 - 1) as nat,
            rank(t, x) + 1,
        );
    }
}

proof fn lemma_visible_all_stable(
    t: Tree,
    collapsed: Set<u128>,
    ids: Seq<u128>,
    depth: usize,
    f1: nat,
    f2: nat,
    r: nat,
)
    requires
        t.wf(),
        r <= t.node_map().len(),
        forall|i: int|
            0 <= i < ids.len() ==> t.node_map().contains_key(#[trigger] ids[i]) && rank(t, ids[i])
                == r,
        f1 + r >= t.node_map().len(),
        f2 + r >= t.node_map().len(),
    ensures
        visible_all(t, collapsed, ids, depth, f1) == visible_all(t, collapsed, ids, depth, f2),
    decreases t.node_map().len() - r, ids.len() + 1,
{
    if ids.len() > 0 {
        let last = ids[ids.len() - 1];
        assert(t.node_map().contains_key(last));
        lemma_visible_all_stable(t, collapsed, ids.drop_last(), depth, f1, f2, r);
        lemma_visible_stable(t, collapsed, last, depth, f1, f2);
    }
}

/// In a well-formed tree, one level of nesting per node already reaches every
/// descendant: more fuel shows the same rows.
pub proof fn lemma_visible_fuel_enough(
    t: Tree,
    collapsed: Set<u128>,
    id: u128,
    depth: usize,
    fuel: nat,
)
    requires
        t.wf(),
        t.node_map().contains_key(id),
        fuel >= t.node_map().len(),
    ensures
        visible(t, collapsed, id, depth, fuel) == visible(t, collapsed, id, depth, t.node_map().len()),
{
    lemma_visible_stable(t, collapsed, id, depth, fuel, t.node_map().len());
}

fn visit(
    tree: &Tree,
    view: &TreeViewState,
    id: u128,
    depth: usize,
    fuel: usize,
    out: &mut Vec<(u128, usize)>,
)
    requires
        tree.wf(),
        tree.node_map().contains_key(id),
        depth + fuel <= usize::MAX,
    ensures
        final(out)@ == old(out)@ + visible(*tree, view.collapsed_set(), id, depth, fuel as nat),
    decreases fuel,
{
    let ghost start = out@;
    if fuel == 0 {
        proof {
            assert(out@ =~= start + Seq::<(u128, usize)>::empty());
        }
        return;
    }
    out.push((id, depth));
    if view.collapsed.contains(&id) {
        return;
    }
    match tree.get_children_ids(&id) {
        Ok(children) => {
            let ghost cs = children@;
            let mut i: usize = 0;
            while i < children.len()
                invariant
                    tree.wf(),
                    children@ == cs,
                    cs == tree.children_of(id),
                    tree.node_map().contains_key(id),
                    0 <= i <= cs.len(),
                    depth + fuel <= usize::MAX,
                    fuel > 0,
                    out@ == start.push((id, depth)) + visible_all(
                        *tree,
                        view.collapsed_set(),
                        cs.take(i as int),
                        (depth + 1) as usize,
                        (fuel - 1) as nat,
                    ),
                decreases cs.len() - i,
            {
                let child = children[i];
                proof {
                    assert(tree.parent_map().contains_key(tree.children_of(id)[i as int]));
                    assert(cs.take(i as int + 1).drop_last() =~= cs.take(i as int));
                }
                visit(tree, view, child, depth + 1, fuel - 1, out);
                proof {
                    assert(out@ =~= start.push((id, depth)) + visible_all(
                        *tree,
                        view.collapsed_set(),
                        cs.take(i as int + 1),
                        (depth + 1) as usize,
                        (fuel - 1) as nat,
                    ));
                }
                i = i + 1;
            }
            proof {
                assert(cs.take(cs.len() as int) =~= cs);
                assert(out@ =~= start + visible(*tree, view.collapsed_set(), id, depth, fuel as nat));
            }
        },
        Err(_) => {
            proof {
                assert(tree.children_of(id) =~= Seq::<u128>::empty());
                assert(out@ =~= start + visible(*tree, view.collapsed_set(), id, depth, fuel as nat));
            }
        },
    }
}

/// Appends to `out` the rows shown from `current_id` at indentation `depth`. A
/// collapsed node shows as its own row alone, whether or not the tree still
/// holds it.
pub fn build_visible_nodes(
    tree: &Tree,
    view: &TreeViewState,
    current_id: &u128,
    depth: usize,
    out: &mut Vec<(u128, usize)>,
) -> (r: Result<(), TreeError>)
    requires
        tree.wf(),
        depth + tree.node_map().len() <= usize::MAX,
    ensures
        view.collapsed_set().contains(*current_id) ==> r is Ok && final(out)@ == old(out)@.push(
            (*current_id, depth),
        ),
        !view.collapsed_set().contains(*current_id) && tree.node_map().contains_key(*current_id)
            ==> r is Ok && final(out)@ == old(out)@ + visible(
            *tree,
            view.collapsed_set(),
            *current_id,
            depth,
            tree.node_map().len(),
        ),
        !view.collapsed_set().contains(*current_id) && !tree.node_map().contains_key(*current_id)
            ==> r == Err::<(), TreeError>(TreeError::NodeNotFound) && final(out)@ == old(out)@,
{
    if view.collapsed.contains(current_id) {
        out.push((*current_id, depth));
        return Ok(());
    }
    tree.get_node(current_id)?;
    visit(tree, view, *current_id, depth, tree.node_count(), out);
    Ok(())
}

/// The rows shown from `start_id`, which sits at indentation 0.
pub fn visible_sequence(tree: &Tree, view: &TreeViewState, start_id: &u128) -> (r: Result<
    Vec<(u128, usize)>,
    TreeError,
>)
    requires
        tree.wf(),
    ensures
        view.collapsed_set().contains(*start_id) ==> r is Ok && r->Ok_0@ == seq![(*start_id, 0usize)],
        !view.collapsed_set().contains(*start_id) && tree.node_map().contains_key(*start_id) ==> r is Ok
            && r->Ok_0@ == visible(*tree, view.collapsed_set(), *start_id, 0, tree.node_map().len()),
        !view.collapsed_set().contains(*start_id) && !tree.node_map().contains_key(*start_id) ==> r
            == Err::<Vec<(u128, usize)>, TreeError>(TreeError::NodeNotFound),
{
    let mut out: Vec<(u128, usize)> = Vec::new();
    if view.collapsed.contains(start_id) {
        out.push((*start_id, 0));
        return Ok(out);
    }
    tree.get_node(start_id)?;
    visit(tree, view, *start_id, 0, tree.node_count(), &mut out);
    proof {
        assert(out@ =~= visible(*tree, view.collapsed_set(), *start_id, 0, tree.node_map().len()));
    }
    Ok(out)
}

} // verus!
