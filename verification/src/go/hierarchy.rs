//! Hierarchy edge components (`Parent` / `Children`).
use vstd::prelude::*;
use std::any::TypeId;

use crate::entity::Entity;
use crate::registry::ComponentDescriptor;
use crate::storage::ComponentValue;
use crate::system::{AccessKind, Stage, System};
use crate::world::World;

verus! {

/// The child side of a hierarchy edge: which parent this game object is
/// attached to (if any).
#[derive(Clone, Copy, Debug, PartialEq, Eq, Default)]
pub struct Parent {
    /// `Some(parent)` when this entity has a live parent, else `None` (root).
    pub parent: Option<Entity>,
}

/// The parent side of a hierarchy edge: the children collection.
#[derive(Clone, Debug, PartialEq, Eq, Default)]
pub struct Children {
    pub children: Vec<Entity>,
}

/// Errors raised by hierarchy operations.
#[derive(Debug, Clone, PartialEq, Eq)]
pub enum HierarchyError {
    /// The proposed parent would form an ancestor cycle.
    Cycle,
    /// An entity handle is stale / destroyed.
    StaleEntity,
}

impl HierarchyError {
    /// Human-readable description of the error.
    pub fn message(&self) -> (m: String)
        ensures
            m@ == (match self {
                HierarchyError::Cycle => "hierarchy cycle rejected"@,
                HierarchyError::StaleEntity => "stale entity handle"@,
            }),
    {
        match self {
            HierarchyError::Cycle => String::from_str("hierarchy cycle rejected"),
            HierarchyError::StaleEntity => String::from_str("stale entity handle"),
        }
    }
}


/// The parent a live entity's `Parent` edge names (`None` for a root, an
/// entity without the edge, or a stale handle).
pub open spec fn parent_link(w: World, e: Entity) -> Option<Entity> {
    if w.view().contains_key(e) && w.view()[e].contains_key(w.parent_type()) {
        match w.view()[e][w.parent_type()] {
            ComponentValue::Parent(p) => p.parent,
            _ => None,
        }
    } else {
        None
    }
}

/// The children a live entity's `Children` edge lists (empty without one).
pub open spec fn children_link(w: World, e: Entity) -> Seq<Entity> {
    if w.view().contains_key(e) && w.view()[e].contains_key(w.children_type()) {
        match w.view()[e][w.children_type()] {
            ComponentValue::Children(c) => c.children@,
            _ => Seq::empty(),
        }
    } else {
        Seq::empty()
    }
}

/// The `k`-th entity up `e`'s ancestor chain (`e` itself at 0).
pub open spec fn nth_ancestor(w: World, e: Entity, k: nat) -> Option<Entity>
    decreases k,
{
    if k == 0 {
        Some(e)
    } else {
        match nth_ancestor(w, e, (k - 1) as nat) {
            Some(x) => parent_link(w, x),
            None => None,
        }
    }
}

/// `ancestor` lies on `node`'s ancestor chain (`node` included).
pub open spec fn on_chain(w: World, ancestor: Entity, node: Entity) -> bool {
    exists|k: nat| nth_ancestor(w, node, k) == Some(ancestor)
}

/// No entity lies on its own ancestor chain at a positive distance.
pub open spec fn acyclic(w: World) -> bool {
    forall|e: Entity, k: nat| k > 0 ==> #[trigger] nth_ancestor(w, e, k) != Some(e)
}

/// Walking `a` steps and then `b` more is walking `a + b` steps.
pub(crate) proof fn lemma_chain_shift(w: World, e: Entity, a: nat, b: nat)
    requires
        nth_ancestor(w, e, a) is Some,
    ensures
        nth_ancestor(w, e, a + b) == nth_ancestor(w, nth_ancestor(w, e, a)->Some_0, b),
    decreases b,
{
    if b > 0 {
        lemma_chain_shift(w, e, a, (b - 1) as nat);
        assert((a + b - 1) as nat == a + (b - 1) as nat);
    }
}

/// Where two worlds' parent edges agree except at `c`, a chain that has
/// not met `c` before step `k` is the same in both up to step `k`.
pub(crate) proof fn lemma_chain_agree(w0: World, w1: World, c: Entity, e: Entity, k: nat)
    requires
        forall|x: Entity| x != c ==> #[trigger] parent_link(w1, x) == parent_link(w0, x),
        forall|j: nat| j < k ==> #[trigger] nth_ancestor(w0, e, j) != Some(c),
    ensures
        nth_ancestor(w1, e, k) == nth_ancestor(w0, e, k),
    decreases k,
{
    if k > 0 {
        lemma_chain_agree(w0, w1, c, e, (k - 1) as nat);
        assert(nth_ancestor(w0, e, (k - 1) as nat) != Some(c));
    }
}

/// A chain through `c` in one world passes `c` no later in the other, where
/// the parent edges agree everywhere but at `c`.
pub(crate) proof fn lemma_chain_hit(w0: World, w1: World, c: Entity, e: Entity, k: nat)
    requires
        forall|x: Entity| x != c ==> #[trigger] parent_link(w1, x) == parent_link(w0, x),
        nth_ancestor(w0, e, k) == Some(c),
    ensures
        exists|j: nat| j <= k && #[trigger] nth_ancestor(w1, e, j) == Some(c),
    decreases k,
{
    if exists|j: nat| j < k && #[trigger] nth_ancestor(w0, e, j) == Some(c) {
        let j = choose|j: nat| j < k && #[trigger] nth_ancestor(w0, e, j) == Some(c);
        lemma_chain_hit(w0, w1, c, e, j);
        let i = choose|i: nat| i <= j && #[trigger] nth_ancestor(w1, e, i) == Some(c);
        assert(i <= k && nth_ancestor(w1, e, i) == Some(c));
    } else {
        lemma_chain_agree(w0, w1, c, e, k);
        assert(nth_ancestor(w1, e, k) == Some(c));
    }
}

/// Worlds with the same parent edges have the same chains.
pub(crate) proof fn lemma_chain_same(w0: World, w1: World, e: Entity, k: nat)
    requires
        forall|x: Entity| #[trigger] parent_link(w1, x) == parent_link(w0, x),
    ensures
        nth_ancestor(w1, e, k) == nth_ancestor(w0, e, k),
    decreases k,
{
    if k > 0 {
        lemma_chain_same(w0, w1, e, (k - 1) as nat);
    }
}

/// Where every parent edge of `w1` is one of `w0`, a chain of `w1` that
/// has not ended is the chain of `w0`.
pub(crate) proof fn lemma_chain_survives(w0: World, w1: World, e: Entity, k: nat)
    requires
        forall|x: Entity| #[trigger] parent_link(w1, x) is Some ==> parent_link(w1, x) == parent_link(w0, x),
        nth_ancestor(w1, e, k) is Some,
    ensures
        nth_ancestor(w1, e, k) == nth_ancestor(w0, e, k),
    decreases k,
{
    if k > 0 {
        let j = (k - 1) as nat;
        if nth_ancestor(w1, e, j) is None {
            assert(nth_ancestor(w1, e, k) is None);
        }
        lemma_chain_survives(w0, w1, e, j);
        let y = nth_ancestor(w1, e, j)->Some_0;
        assert(parent_link(w1, y) is Some);
    }
}

/// The parent edge `maintain` leaves: a live parent is kept, a dangling one
/// is cleared.
pub open spec fn repaired_parent(w0: World, x: Entity) -> Option<Entity> {
    match parent_link(w0, x) {
        Some(p) => if w0.view().contains_key(p) { Some(p) } else { None },
        None => None,
    }
}

/// `maintain` never creates a cycle: it only clears parent edges.
pub proof fn lemma_maintain_keeps_acyclic(w0: World, w1: World)
    requires
        acyclic(w0),
        forall|x: Entity| #[trigger] parent_link(w1, x) == repaired_parent(w0, x),
    ensures
        acyclic(w1),
{
    assert forall|e: Entity, k: nat| k > 0 implies #[trigger] nth_ancestor(w1, e, k) != Some(e) by {
        if nth_ancestor(w1, e, k) == Some(e) {
            lemma_chain_survives(w0, w1, e, k);
            assert(nth_ancestor(w0, e, k) != Some(e));
        }
    }
}

/// The parent edge of an entity as stored.
pub fn parent_of(world: &World, e: Entity) -> (r: Option<Entity>)
    requires
        world.wf(),
    ensures
        r == parent_link(*world, e),
{
    let pt = world.parent_type_id();
    match world.get_value(e, &pt) {
        Ok(Some(ComponentValue::Parent(p))) => p.parent,
        _ => None,
    }
}

/// Once the chain ends it stays ended.
pub(crate) proof fn lemma_chain_ends(w: World, e: Entity, k: nat, j: nat)
    requires
        k <= j,
        nth_ancestor(w, e, k) is None,
    ensures
        nth_ancestor(w, e, j) is None,
    decreases j - k,
{
    if j > k {
        lemma_chain_ends(w, e, k, (j - 1) as nat);
    }
}

/// A repeat on the chain repeats forever after.
proof fn lemma_chain_periodic(w: World, e: Entity, i: nat, j: nat, m: nat)
    requires
        i < j,
        nth_ancestor(w, e, i) == nth_ancestor(w, e, j),
        i <= m,
    ensures
        nth_ancestor(w, e, (m + (j - i)) as nat) == nth_ancestor(w, e, m),
    decreases m - i,
{
    if m > i {
        lemma_chain_periodic(w, e, i, j, (m - 1) as nat);
        assert(((m - 1) as nat + (j - i)) as nat + 1 == m + (j - i));
        assert((m + (j - i)) as nat - 1 == ((m - 1) as nat + (j - i)) as nat);
    }
}

/// A repeat on the chain reduces any later position into the first period.
proof fn lemma_chain_reduce(w: World, e: Entity, i: nat, j: nat, kk: nat)
    requires
        i < j,
        nth_ancestor(w, e, i) == nth_ancestor(w, e, j),
        j <= kk,
    ensures
        exists|r: nat| i <= r < j && nth_ancestor(w, e, r) == nth_ancestor(w, e, kk),
    decreases kk,
{
    let p = (j - i) as nat;
    let m = (kk - p) as nat;
    lemma_chain_periodic(w, e, i, j, m);
    assert(m + p == kk);
    if m < j {
        assert(i <= m);
    } else {
        lemma_chain_reduce(w, e, i, j, m);
    }
}

/// If `ancestor` is on the chain at all, it is within the first `n + 1`
/// positions, where `n` bounds the number of live entities.
proof fn lemma_chain_bound(w: World, ancestor: Entity, node: Entity, k: nat)
    requires
        w.wf(),
        forall|j: nat| j <= k ==> nth_ancestor(w, node, j) is Some && nth_ancestor(w, node, j) != Some(ancestor),
        k > w.view().dom().len(),
    ensures
        !on_chain(w, ancestor, node),
{
    w.lemma_view_finite();
    let n = w.view().dom().len();
    // The first n + 1 chain entries are live (each has a parent).
    let s = Seq::new((n + 1) as nat, |j: int| nth_ancestor(w, node, j as nat)->Some_0);
    assert forall|j: int| 0 <= j < s.len() implies w.view().contains_key(#[trigger] s[j]) by {
        assert(nth_ancestor(w, node, (j + 1) as nat) is Some);
        assert(parent_link(w, s[j]) is Some);
    }
    if s.no_duplicates() {
        s.unique_seq_to_set();
        assert(s.to_set().subset_of(w.view().dom())) by {
            assert forall|x: Entity| s.to_set().contains(x) implies w.view().dom().contains(x) by {
                let j = choose|j: int| 0 <= j < s.len() && s[j] == x;
            }
        }
        vstd::set_lib::lemma_len_subset(s.to_set(), w.view().dom());
        assert(false);
    } else {
        let (a, b) = choose|a: int, b: int| 0 <= a < s.len() && 0 <= b < s.len() && a != b && s[a] == s[b];
        let i = if a < b { a } else { b };
        let j = if a < b { b } else { a };
        assert(nth_ancestor(w, node, i as nat) == nth_ancestor(w, node, j as nat));
        if on_chain(w, ancestor, node) {
            let kk = choose|kk: nat| nth_ancestor(w, node, kk) == Some(ancestor);
            if kk >= j {
                lemma_chain_reduce(w, node, i as nat, j as nat, kk);
                let r = choose|r: nat| i <= r < j && nth_ancestor(w, node, r) == nth_ancestor(w, node, kk);
                assert(r <= k);
            } else {
                assert(kk <= k);
            }
        }
    }
}

/// Returns `true` if `ancestor` lies on `node`'s ancestor chain (a cycle would
/// result from attaching `node` under `ancestor`). A chain that already
/// loops is walked only until it repeats.
pub fn would_cycle(world: &World, ancestor: Entity, node: Entity) -> (r: bool)
    requires
        world.wf(),
    ensures
        r == on_chain(*world, ancestor, node),
{
    let bound = world.entity_count() as u64;
    let mut cur = node;
    let mut k: u64 = 0;
    proof { world.lemma_view_finite(); }
    loop
        invariant
            world.wf(),
            bound == world.view().dom().len(),
            bound <= u32::MAX,
            k <= bound + 1,
            nth_ancestor(*world, node, k as nat) == Some(cur),
            forall|j: nat| j < k ==> nth_ancestor(*world, node, j) is Some && nth_ancestor(*world, node, j) != Some(ancestor),
        decreases bound + 1 - k,
    {
        if cur == ancestor {
            return true;
        }
        if k > bound {
            proof {
                assert forall|j: nat| j <= k implies nth_ancestor(*world, node, j) is Some && nth_ancestor(*world, node, j) != Some(ancestor) by {
                    if j == k {} else {}
                }
                lemma_chain_bound(*world, ancestor, node, k as nat);
            }
            return false;
        }
        match parent_of(world, cur) {
            Some(p) => {
                proof {
                    assert(nth_ancestor(*world, node, (k + 1) as nat) == Some(p));
                }
                cur = p;
                k = k + 1;
            },
            None => {
                proof {
                    assert(nth_ancestor(*world, node, (k + 1) as nat) is None);
                    if on_chain(*world, ancestor, node) {
                        let kk = choose|kk: nat| nth_ancestor(*world, node, kk) == Some(ancestor);
                        if kk > k {
                            lemma_chain_ends(*world, node, (k + 1) as nat, kk);
                        }
                    }
                }
                return false;
            },
        }
    }
}


// ── maintenance ──────────────────────────────────────────────────────────

/// Both sides of every hierarchy edge agree: a parent edge names a live
/// entity that lists the child, and every listed child is live and names
/// the lister as its parent.
pub open spec fn consistent(w: World) -> bool {
    &&& forall|x: Entity| #[trigger] parent_link(w, x) is Some
        ==> w.view().contains_key(parent_link(w, x)->Some_0) && children_link(w, parent_link(w, x)->Some_0).contains(x)
    &&& forall|p: Entity, c: Entity| #[trigger] children_link(w, p).contains(c)
        ==> w.view().contains_key(c) && parent_link(w, c) == Some(p)
}

/// The children of `s` that are live and name `p` as their parent, in order.
pub open spec fn pointing_back(w: World, p: Entity, s: Seq<Entity>) -> Seq<Entity>
    decreases s.len(),
{
    if s.len() == 0 {
        s
    } else if w.view().contains_key(s.last()) && parent_link(w, s.last()) == Some(p) {
        pointing_back(w, p, s.drop_last()).push(s.last())
    } else {
        pointing_back(w, p, s.drop_last())
    }
}

proof fn lemma_pointing_back(w: World, p: Entity, s: Seq<Entity>)
    ensures
        forall|c: Entity| #[trigger] pointing_back(w, p, s).contains(c)
            <==> s.contains(c) && w.view().contains_key(c) && parent_link(w, c) == Some(p),
    decreases s.len(),
{
    if s.len() > 0 {
        let d = s.drop_last();
        let l = s.last();
        let pd = pointing_back(w, p, d);
        lemma_pointing_back(w, p, d);
        assert forall|c: Entity| #[trigger] s.contains(c) <==> d.contains(c) || c == l by {
            if s.contains(c) && c != l {
                let k = choose|k: int| 0 <= k < s.len() && s[k] == c;
                assert(d[k] == c);
            }
            if d.contains(c) {
                let k = choose|k: int| 0 <= k < d.len() && d[k] == c;
                assert(s[k] == c);
            }
            if c == l {
                assert(s[s.len() - 1] == c);
            }
        }
        if w.view().contains_key(l) && parent_link(w, l) == Some(p) {
            assert(pointing_back(w, p, s) == pd.push(l));
            assert forall|c: Entity| #[trigger] pd.push(l).contains(c) <==> pd.contains(c) || c == l by {
                if pd.push(l).contains(c) && c != l {
                    let k = choose|k: int| 0 <= k < pd.push(l).len() && pd.push(l)[k] == c;
                    assert(pd[k] == c);
                }
                if pd.contains(c) {
                    let k = choose|k: int| 0 <= k < pd.len() && pd[k] == c;
                    assert(pd.push(l)[k] == c);
                }
                if c == l {
                    assert(pd.push(l)[pd.len() as int] == c);
                }
            }
        } else {
            assert(pointing_back(w, p, s) == pd);
        }
    }
}

/// From `w0` to `w1` only hierarchy edges changed.
pub open spec fn edges_only(w0: World, w1: World) -> bool {
    &&& w1.wf()
    &&& w1.view().dom() == w0.view().dom()
    &&& w1.parent_type() == w0.parent_type()
    &&& w1.children_type() == w0.children_type()
    &&& forall|x: Entity| #[trigger] w0.view().contains_key(x) ==>
        w1.view()[x].remove(w0.parent_type()).remove(w0.children_type())
            == w0.view()[x].remove(w0.parent_type()).remove(w0.children_type())
    &&& forall|x: Entity, u: TypeId| #![trigger w0.view()[x].contains_key(u)]
        w0.view().contains_key(x) && w0.view()[x].contains_key(u) ==> w1.view()[x].contains_key(u)
    &&& World::frame_kept(w0, w1)
}

/// A consistent world changed nothing but edges from itself.
pub(crate) proof fn lemma_edges_only_refl(w: World)
    requires
        w.wf(),
    ensures
        edges_only(w, w),
{
}

/// One write of a hierarchy edge value (or none) keeps a change of edges
/// only.
pub(crate) proof fn lemma_edge_step(w0: World, wb: World, w1: World, e: Entity, t: TypeId)
    requires
        edges_only(w0, wb),
        w1.wf(),
        t == wb.parent_type() || t == wb.children_type(),
        wb.view().contains_key(e),
        w1.view() == wb.view() || w1.view() == wb.view().insert(e, wb.view()[e].insert(t, w1.view()[e][t])),
        w1.parent_type() == wb.parent_type(),
        w1.children_type() == wb.children_type(),
        World::frame_kept(wb, w1),
    ensures
        edges_only(w0, w1),
{
    let pt = w0.parent_type();
    let ct = w0.children_type();
    assert(w1.view().dom() =~= wb.view().dom());
    assert forall|x: Entity| #[trigger] w0.view().contains_key(x) implies
        w1.view()[x].remove(pt).remove(ct) == w0.view()[x].remove(pt).remove(ct) by {
        if x == e && w1.view() != wb.view() {
            assert(w1.view()[x].remove(pt).remove(ct) =~= wb.view()[x].remove(pt).remove(ct));
        }
    }
    assert forall|x: Entity, u: TypeId| #![trigger w0.view()[x].contains_key(u)]
        w0.view().contains_key(x) && w0.view()[x].contains_key(u) implies w1.view()[x].contains_key(u) by {
        assert(wb.view()[x].contains_key(u));
    }
}

/// Writes the parent edge of a live entity that has one.
fn write_parent(world: &mut World, e: Entity, parent: Option<Entity>)
    requires
        old(world).wf(),
        old(world).view().contains_key(e),
        old(world).view()[e].contains_key(old(world).parent_type()),
    ensures
        edges_only(*old(world), *final(world)),
        parent_link(*final(world), e) == parent,
        forall|x: Entity| x != e ==> #[trigger] parent_link(*final(world), x) == parent_link(*old(world), x),
        forall|x: Entity| #[trigger] children_link(*final(world), x) == children_link(*old(world), x),
{
    proof { old(world).lemma_edge_types_differ(); }
    let pt = world.parent_type_id();
    let v = world.value_mut(e, &pt);
    *v = ComponentValue::Parent(Parent { parent });
    proof {
        assert(world.view().dom() =~= old(world).view().dom());
        assert(edges_only(*old(world), *old(world))) by {
            assert forall|x: Entity| #[trigger] old(world).view().contains_key(x) implies
                old(world).view()[x].remove(pt).remove(old(world).children_type()) == old(world).view()[x].remove(pt).remove(old(world).children_type()) by {}
        }
        lemma_edge_step(*old(world), *old(world), *world, e, pt);
    }
}

/// Phase A: a child whose parent no longer lives is detached to root.
fn clean_orphans(world: &mut World, ents: &Vec<Entity>)
    requires
        old(world).wf(),
        forall|x: Entity| #[trigger] ents@.contains(x) <==> old(world).view().contains_key(x),
        ents@.no_duplicates(),
    ensures
        edges_only(*old(world), *final(world)),
        forall|x: Entity| #[trigger] parent_link(*final(world), x) == (match parent_link(*old(world), x) {
            Some(p) => if old(world).view().contains_key(p) { Some(p) } else { None },
            None => None,
        }),
        forall|x: Entity| #[trigger] children_link(*final(world), x) == children_link(*old(world), x),
{
    let ghost w0 = *world;
    let mut k: usize = 0;
    while k < ents.len()
        invariant
            edges_only(w0, *world),
            0 <= k <= ents@.len(),
            ents@.no_duplicates(),
            forall|x: Entity| #[trigger] ents@.contains(x) <==> w0.view().contains_key(x),
            forall|i: int| 0 <= i < k ==> #[trigger] parent_link(*world, ents@[i]) == (match parent_link(w0, ents@[i]) {
                Some(p) => if w0.view().contains_key(p) { Some(p) } else { None },
                None => None,
            }),
            forall|i: int| k <= i < ents@.len() ==> #[trigger] parent_link(*world, ents@[i]) == parent_link(w0, ents@[i]),
            forall|x: Entity| !w0.view().contains_key(x) ==> #[trigger] parent_link(*world, x) is None,
            forall|x: Entity| #[trigger] children_link(*world, x) == children_link(w0, x),
        decreases ents@.len() - k,
    {
        let e = ents[k];
        proof { assert(ents@.contains(e)); }
        let ghost wb = *world;
        match parent_of(world, e) {
            Some(p) => {
                if !world.contains_entity(p) {
                    write_parent(world, e, None);
                    proof {
                        assert forall|i: int| 0 <= i < ents@.len() && i != k implies ents@[i] != e by {}
                    }
                }
            },
            None => {},
        }
        k = k + 1;
    }
    proof {
        assert forall|x: Entity| #[trigger] parent_link(*world, x) == (match parent_link(w0, x) {
            Some(p) => if w0.view().contains_key(p) { Some(p) } else { None },
            None => None,
        }) by {
            if w0.view().contains_key(x) {
                assert(ents@.contains(x));
                let i = choose|i: int| 0 <= i < ents@.len() && ents@[i] == x;
            }
        }
    }
}

/// Phase B: a child pointing at a live parent joins that parent's
/// children.
fn restore_back_edges(world: &mut World, ents: &Vec<Entity>)
    requires
        old(world).wf(),
        forall|x: Entity| #[trigger] ents@.contains(x) <==> old(world).view().contains_key(x),
        ents@.no_duplicates(),
        forall|x: Entity| #[trigger] parent_link(*old(world), x) is Some ==> old(world).view().contains_key(parent_link(*old(world), x)->Some_0),
    ensures
        edges_only(*old(world), *final(world)),
        forall|x: Entity| #[trigger] parent_link(*final(world), x) == parent_link(*old(world), x),
        forall|x: Entity| #[trigger] parent_link(*old(world), x) is Some ==> children_link(*final(world), parent_link(*old(world), x)->Some_0).contains(x),
        forall|p: Entity, c: Entity| #[trigger] children_link(*final(world), p).contains(c)
            ==> children_link(*old(world), p).contains(c) || parent_link(*old(world), c) == Some(p),
{
    let ghost w0 = *world;
    let ct = world.children_type_id();
    let mut k: usize = 0;
    proof { w0.lemma_edge_types_differ(); }
    while k < ents.len()
        invariant
            edges_only(w0, *world),
            ct == w0.children_type(),
            w0.parent_type() != w0.children_type(),
            0 <= k <= ents@.len(),
            ents@.no_duplicates(),
            forall|x: Entity| #[trigger] ents@.contains(x) <==> w0.view().contains_key(x),
            forall|x: Entity| #[trigger] parent_link(w0, x) is Some ==> w0.view().contains_key(parent_link(w0, x)->Some_0),
            forall|x: Entity| #[trigger] parent_link(*world, x) == parent_link(w0, x),
            forall|i: int| 0 <= i < k && #[trigger] parent_link(w0, ents@[i]) is Some ==> children_link(*world, parent_link(w0, ents@[i])->Some_0).contains(ents@[i]),
            forall|p: Entity, c: Entity| #[trigger] children_link(*world, p).contains(c)
                ==> children_link(w0, p).contains(c) || parent_link(w0, c) == Some(p),
        decreases ents@.len() - k,
    {
        let e = ents[k];
        proof { assert(ents@.contains(e)); }
        let ghost wb = *world;
        match parent_of(world, e) {
            Some(par) => {
                if world.contains_entity(par) {
                    match world.contains_id(par, &ct) {
                        Ok(true) => {
                            let v = world.value_mut(par, &ct);
                            match v {
                                ComponentValue::Children(c) => {
                                    if !holds_in(&c.children, e) {
                                        c.children.push(e);
                                    }
                                },
                                _ => {
                                    *v = ComponentValue::Children(Children { children: vec![e] });
                                },
                            }
                        },
                        _ => {
                            let _ = world.add_value(par, ct, ComponentDescriptor::of::<Children>(false), ComponentValue::Children(Children { children: vec![e] }));
                        },
                    }
                    proof {
                        lemma_edge_step(w0, wb, *world, par, ct);
                        assert(world.view().dom() =~= wb.view().dom());
                        assert forall|x: Entity| #[trigger] parent_link(*world, x) == parent_link(w0, x) by {
                            assert(parent_link(wb, x) == parent_link(w0, x));
                        }
                        assert forall|q: Entity| q != par implies #[trigger] children_link(*world, q) == children_link(wb, q) by {}
                        assert(children_link(*world, par).contains(e)) by {
                            let s = children_link(*world, par);
                            if !children_link(wb, par).contains(e) {
                                assert(s[s.len() - 1] == e);
                            }
                        }
                        assert forall|p: Entity, c: Entity| #[trigger] children_link(*world, p).contains(c)
                            implies children_link(w0, p).contains(c) || parent_link(w0, c) == Some(p) by {
                            if p == par {
                                let s = children_link(*world, par);
                                let s0 = children_link(wb, par);
                                if c != e {
                                    let q = choose|q: int| 0 <= q < s.len() && s[q] == c;
                                    assert(s0.len() > 0 || s =~= seq![e]);
                                    if s0.len() > 0 {
                                        assert(s == s0 || s == s0.push(e));
                                        assert(s0[q] == c);
                                        assert(children_link(wb, par).contains(c));
                                    }
                                }
                            } else {
                                assert(children_link(wb, p).contains(c));
                            }
                        }
                        assert forall|i: int| 0 <= i < k + 1 && #[trigger] parent_link(w0, ents@[i]) is Some
                            implies children_link(*world, parent_link(w0, ents@[i])->Some_0).contains(ents@[i]) by {
                            let p = parent_link(w0, ents@[i])->Some_0;
                            if i < k && p == par {
                                let s0 = children_link(wb, par);
                                let s = children_link(*world, par);
                                let q = choose|q: int| 0 <= q < s0.len() && s0[q] == ents@[i];
                                if s0.len() > 0 && s != s0 {
                                    assert(s[q] == ents@[i]);
                                }
                            }
                        }
                    }
                }
            },
            None => {},
        }
        k = k + 1;
    }
    proof {
        assert forall|x: Entity| #[trigger] parent_link(w0, x) is Some implies children_link(*world, parent_link(w0, x)->Some_0).contains(x) by {
            assert(ents@.contains(x));
            let i = choose|i: int| 0 <= i < ents@.len() && ents@[i] == x;
        }
    }
}

/// Whether `v` holds `x`.
fn holds_in(v: &Vec<Entity>, x: Entity) -> (b: bool)
    ensures
        b == v@.contains(x),
{
    let mut i: usize = 0;
    while i < v.len()
        invariant
            0 <= i <= v@.len(),
            forall|j: int| 0 <= j < i ==> v@[j] != x,
        decreases v@.len() - i,
    {
        if v[i] == x {
            return true;
        }
        i = i + 1;
    }
    false
}


proof fn lemma_pointing_back_same(w0: World, w1: World, p: Entity, s: Seq<Entity>)
    requires
        w1.view().dom() == w0.view().dom(),
        forall|x: Entity| #[trigger] parent_link(w1, x) == parent_link(w0, x),
    ensures
        pointing_back(w1, p, s) == pointing_back(w0, p, s),
    decreases s.len(),
{
    if s.len() > 0 {
        lemma_pointing_back_same(w0, w1, p, s.drop_last());
        assert(parent_link(w1, s.last()) == parent_link(w0, s.last()));
        assert(w1.view().contains_key(s.last()) == w0.view().contains_key(s.last()));
    }
}

/// The children of `v` that are live and name `p` as their parent.
fn kept_children(world: &World, p: Entity, v: &Vec<Entity>) -> (r: Vec<Entity>)
    requires
        world.wf(),
    ensures
        r@ == pointing_back(*world, p, v@),
{
    let mut out: Vec<Entity> = Vec::new();
    let mut i: usize = 0;
    while i < v.len()
        invariant
            world.wf(),
            0 <= i <= v@.len(),
            out@ == pointing_back(*world, p, v@.take(i as int)),
        decreases v@.len() - i,
    {
        let c = v[i];
        proof {
            assert(v@.take(i as int + 1).drop_last() =~= v@.take(i as int));
            assert(v@.take(i as int + 1).last() == c);
        }
        if world.contains_entity(c) {
            match parent_of(world, c) {
                Some(q) => {
                    if q == p {
                        out.push(c);
                    }
                },
                None => {},
            }
        }
        i = i + 1;
    }
    assert(v@.take(v@.len() as int) =~= v@);
    out
}

/// Phase C: children entries whose child is dead or does not point back
/// are dropped.
fn drop_dangling(world: &mut World, ents: &Vec<Entity>)
    requires
        old(world).wf(),
        forall|x: Entity| #[trigger] ents@.contains(x) <==> old(world).view().contains_key(x),
        ents@.no_duplicates(),
    ensures
        edges_only(*old(world), *final(world)),
        forall|x: Entity| #[trigger] parent_link(*final(world), x) == parent_link(*old(world), x),
        forall|p: Entity| #[trigger] children_link(*final(world), p) == pointing_back(*old(world), p, children_link(*old(world), p)),
{
    let ghost w0 = *world;
    let ct = world.children_type_id();
    proof { w0.lemma_edge_types_differ(); }
    let mut k: usize = 0;
    while k < ents.len()
        invariant
            edges_only(w0, *world),
            ct == w0.children_type(),
            w0.parent_type() != w0.children_type(),
            0 <= k <= ents@.len(),
            ents@.no_duplicates(),
            forall|x: Entity| #[trigger] ents@.contains(x) <==> w0.view().contains_key(x),
            forall|x: Entity| #[trigger] parent_link(*world, x) == parent_link(w0, x),
            forall|i: int| 0 <= i < k ==> #[trigger] children_link(*world, ents@[i]) == pointing_back(w0, ents@[i], children_link(w0, ents@[i])),
            forall|i: int| k <= i < ents@.len() ==> #[trigger] children_link(*world, ents@[i]) == children_link(w0, ents@[i]),
            forall|x: Entity| !w0.view().contains_key(x) ==> #[trigger] children_link(*world, x) == Seq::<Entity>::empty(),
        decreases ents@.len() - k,
    {
        let e = ents[k];
        proof {
            assert(ents@.contains(e));
            assert forall|i: int| 0 <= i < ents@.len() && i != k implies ents@[i] != e by {}
        }
        let ghost wb = *world;
        let keep = match world.get_value(e, &ct) {
            Ok(Some(ComponentValue::Children(c))) => Some(kept_children(world, e, &c.children)),
            _ => None,
        };
        match keep {
            Some(kv) => {
                let v = world.value_mut(e, &ct);
                match v {
                    ComponentValue::Children(c) => {
                        c.children = kv;
                    },
                    _ => {},
                }
                proof {
                    lemma_edge_step(w0, wb, *world, e, ct);
                    assert(world.view().dom() =~= wb.view().dom());
                    assert forall|x: Entity| #[trigger] parent_link(*world, x) == parent_link(w0, x) by {
                        assert(parent_link(wb, x) == parent_link(w0, x));
                    }
                    lemma_pointing_back_same(w0, wb, e, children_link(w0, e));
                    assert(children_link(wb, e) == children_link(w0, e));
                    assert(children_link(*world, e) == pointing_back(w0, e, children_link(w0, e)));
                    assert forall|x: Entity| x != e implies #[trigger] children_link(*world, x) == children_link(wb, x) by {}
                    assert forall|i: int| 0 <= i < k + 1 implies #[trigger] children_link(*world, ents@[i]) == pointing_back(w0, ents@[i], children_link(w0, ents@[i])) by {
                        if i < k {
                            assert(children_link(wb, ents@[i]) == pointing_back(w0, ents@[i], children_link(w0, ents@[i])));
                        }
                    }
                    assert forall|i: int| k + 1 <= i < ents@.len() implies #[trigger] children_link(*world, ents@[i]) == children_link(w0, ents@[i]) by {
                        assert(children_link(wb, ents@[i]) == children_link(w0, ents@[i]));
                    }
                }
            },
            None => {
                proof {
                    assert(children_link(wb, e) == children_link(w0, e));
                    assert(children_link(wb, e) == Seq::<Entity>::empty());
                    assert(pointing_back(w0, e, Seq::<Entity>::empty()) == Seq::<Entity>::empty());
                }
            },
        }
        k = k + 1;
    }
    proof {
        assert forall|p: Entity| #[trigger] children_link(*world, p) == pointing_back(w0, p, children_link(w0, p)) by {
            if w0.view().contains_key(p) {
                assert(ents@.contains(p));
                let i = choose|i: int| 0 <= i < ents@.len() && ents@[i] == p;
            } else {
                assert(children_link(w0, p) == Seq::<Entity>::empty());
            }
        }
    }
}

/// PostUpdate reconciliation: cleans orphaned children (a `Parent` pointing
/// at a destroyed entity) and dangling or inconsistent `Children` entries,
/// and restores missing back-edges, so that afterwards the hierarchy is
/// consistent both ways.
///
/// `Scene::set_parent` already maintains the edges eagerly, so this pass
/// only repairs paths that bypassed it (e.g. a direct `World::destroy` or a
/// raw `Parent` field write).
pub fn maintain(world: &mut World)
    requires
        old(world).wf(),
    ensures
        edges_only(*old(world), *final(world)),
        consistent(*final(world)),
        forall|x: Entity| #[trigger] parent_link(*final(world), x) == repaired_parent(*old(world), x),
{
    let ents = world.entities();
    let ghost w0 = *world;
    clean_orphans(world, &ents);
    let ghost w1 = *world;
    restore_back_edges(world, &ents);
    let ghost w2 = *world;
    drop_dangling(world, &ents);
    proof {
        let w3 = *world;
        assert forall|x: Entity| #[trigger] parent_link(w3, x) is Some
            implies w3.view().contains_key(parent_link(w3, x)->Some_0) && children_link(w3, parent_link(w3, x)->Some_0).contains(x) by {
            let p = parent_link(w3, x)->Some_0;
            assert(parent_link(w1, x) == Some(p));
            assert(children_link(w2, p).contains(x));
            assert(w2.view().contains_key(x));
            lemma_pointing_back(w2, p, children_link(w2, p));
            assert(pointing_back(w2, p, children_link(w2, p)).contains(x));
        }
        assert forall|p: Entity, c: Entity| #[trigger] children_link(w3, p).contains(c)
            implies w3.view().contains_key(c) && parent_link(w3, c) == Some(p) by {
            lemma_pointing_back(w2, p, children_link(w2, p));
        }
    }
}

/// Builds the `hierarchy_maintain` post-update system, ordered before
/// `transform_propagate` so propagation sees a consistent hierarchy.
pub fn hierarchy_maintain_system() -> (s: System)
    ensures
        s.meta().stage == Stage::PostUpdate,
        s.access_spec().len() == 2,
        s.meta().before is Some,
        s.meta().after is None,
{
    System::with_spec(
        "hierarchy_maintain",
        Stage::PostUpdate,
        &[("Parent", AccessKind::Write), ("Children", AccessKind::Write)],
        Some("transform_propagate"),
        None,
        maintain,
    )
}

} // verus!
