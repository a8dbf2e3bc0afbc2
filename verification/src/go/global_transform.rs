//! Dirty marking for transform propagation, and the hierarchy walks that
//! propagation is built on.
//!
//! Propagation runs in two phases: every descendant of a dirty game object
//! is marked dirty, then every marked game object recomputes its world
//! transform from its own ancestor chain. This module holds the walks; the
//! matrix arithmetic over them is done by the caller.
use vstd::prelude::*;
use std::any::TypeId;

use crate::entity::Entity;
use crate::erased::ErasedBox;
use crate::registry::ComponentDescriptor;
use crate::storage::ComponentValue;
use crate::world::World;

use super::component::Component;
use super::hierarchy::{nth_ancestor, parent_of};
use super::scene::{collect_reachable, lemma_live_bounded, reachable_listing};

verus! {

/// Marker component set by the Scene transform set APIs, cleared by
/// propagation. Presence means "recompute this entity's world transform".
#[derive(Clone, Copy, Debug, Default, PartialEq, Eq, Structural)]
pub struct TransformDirty;

impl Component for TransformDirty {
}

/// `c` is `e`'s ancestor chain `[e, parent, ..., root]`, cut where an entity
/// index would repeat (a malformed cycle).
pub open spec fn chain_of(w: World, e: Entity, c: Seq<Entity>) -> bool {
    &&& c.len() > 0
    &&& forall|i: int| 0 <= i < c.len() ==> nth_ancestor(w, e, i as nat) == Some(#[trigger] c[i])
    &&& forall|a: int, b: int| #![trigger c[a], c[b]] 0 <= a < b < c.len() ==> c[a].idx() != c[b].idx()
    &&& match nth_ancestor(w, e, c.len()) {
        None => true,
        Some(x) => exists|a: int| 0 <= a < c.len() && #[trigger] c[a].idx() == x.idx(),
    }
}

/// Whether some entry of `v` has index `i`.
fn holds_index(v: &Vec<Entity>, i: u32) -> (b: bool)
    ensures
        b == exists|k: int| 0 <= k < v@.len() && #[trigger] v@[k].idx() == i,
{
    let mut k: usize = 0;
    while k < v.len()
        invariant
            0 <= k <= v@.len(),
            forall|j: int| 0 <= j < k ==> #[trigger] v@[j].idx() != i,
        decreases v@.len() - k,
    {
        if v[k].index() == i {
            return true;
        }
        k = k + 1;
    }
    false
}

/// The ancestor chain `[entity, parent, ..., root]` a world transform is
/// composed along. A malformed cycle is cut where an entity index repeats.
pub fn ancestor_chain(world: &World, entity: Entity) -> (chain: Vec<Entity>)
    requires
        world.wf(),
    ensures
        chain_of(*world, entity, chain@),
{
    let bound = world.entity_count();
    let mut chain: Vec<Entity> = Vec::new();
    let mut node = entity;
    let mut done = false;
    proof { world.lemma_view_finite(); }
    while !done
        invariant
            world.wf(),
            bound == world.view().dom().len(),
            chain@.len() <= bound + 1,
            forall|i: int| 0 <= i < chain@.len() ==> nth_ancestor(*world, entity, i as nat) == Some(#[trigger] chain@[i]),
            forall|a: int, b: int| #![trigger chain@[a], chain@[b]] 0 <= a < b < chain@.len() ==> chain@[a].idx() != chain@[b].idx(),
            !done ==> nth_ancestor(*world, entity, chain@.len() as nat) == Some(node),
            !done ==> forall|i: int| 0 <= i < chain@.len() ==> world.view().contains_key(#[trigger] chain@[i]),
            !done ==> chain@.len() <= bound,
            done ==> chain_of(*world, entity, chain@),
        decreases (bound + 1 - chain@.len()) * 2 + (if done { 0int } else { 1int }),
    {
        if holds_index(&chain, node.index()) {
            done = true;
        } else {
            let ghost c0 = chain@;
            chain.push(node);
            proof {
                assert(chain@[c0.len() as int] == node);
                assert forall|a: int, b: int| #![trigger chain@[a], chain@[b]] 0 <= a < b < chain@.len() implies chain@[a].idx() != chain@[b].idx() by {
                    if b == c0.len() {
                        assert(chain@[a] == c0[a]);
                    } else {
                        assert(chain@[a] == c0[a] && chain@[b] == c0[b]);
                    }
                }
                assert forall|i: int| 0 <= i < chain@.len() implies nth_ancestor(*world, entity, i as nat) == Some(#[trigger] chain@[i]) by {
                    if i < c0.len() {
                        assert(chain@[i] == c0[i]);
                    }
                }
            }
            match parent_of(world, node) {
                Some(p) => {
                    proof {
                        assert(nth_ancestor(*world, entity, chain@.len() as nat) == Some(p));
                        assert forall|i: int| 0 <= i < chain@.len() implies world.view().contains_key(#[trigger] chain@[i]) by {
                            if i < c0.len() {
                                assert(chain@[i] == c0[i]);
                            }
                        }
                        assert(chain@.no_duplicates()) by {
                            assert forall|a: int, b: int| 0 <= a < chain@.len() && 0 <= b < chain@.len() && a != b implies chain@[a] != chain@[b] by {
                                if a < b {
                                    assert(chain@[a].idx() != chain@[b].idx());
                                } else {
                                    assert(chain@[b].idx() != chain@[a].idx());
                                }
                            }
                        }
                        lemma_live_bounded(*world, chain@);
                    }
                    node = p;
                },
                None => {
                    done = true;
                },
            }
        }
    }
    chain
}

/// The live entities carrying a value of type `td`.
pub open spec fn marked(w: World, td: TypeId) -> Set<Entity> {
    Set::new(|x: Entity| w.view().contains_key(x) && w.view()[x].contains_key(td))
}

/// From `w0` to `w1` the marker `td` spread over `s`, the live entities
/// reachable through children edges from the entities marked in `w0`:
/// exactly those gained it, and nothing else changed.
pub open spec fn spread_marker(w0: World, w1: World, td: TypeId, s: Seq<Entity>) -> bool {
    &&& reachable_listing(w0, marked(w0, td), s)
    &&& w1.view().dom() == w0.view().dom()
    &&& forall|x: Entity| #[trigger] w0.view().contains_key(x) ==> {
        &&& w1.view()[x].contains_key(td) == (w0.view()[x].contains_key(td) || s.contains(x))
        &&& w1.view()[x].remove(td) == w0.view()[x].remove(td)
        &&& w0.view()[x].contains_key(td) ==> w1.view()[x][td] == w0.view()[x][td]
    }
}

/// Propagation's first phase: from every dirty game object, walks the
/// `Children` subtree and marks every descendant dirty, so that a parent's
/// movement reaches the whole subtree.
pub fn mark_dirty_subtrees(world: &mut World)
    requires
        old(world).wf(),
    ensures
        final(world).wf(),
        exists|s: Seq<Entity>| #[trigger] spread_marker(*old(world), *final(world), old(world).dirty_type(), s),
        World::frame_kept(*old(world), *final(world)),
{
    let ghost w0 = *world;
    let td = world.dirty_type_id();
    let ts = vec![td];
    let roots = world.entities_having(&ts);
    proof {
        assert(ts@[0] == td);
        assert(roots@.to_set() =~= marked(w0, td)) by {
            assert forall|x: Entity| #[trigger] roots@.to_set().contains(x) <==> marked(w0, td).contains(x) by {
                if roots@.contains(x) {
                    assert(w0.view()[x].contains_key(ts@[0]));
                }
                if marked(w0, td).contains(x) {
                    assert forall|j: int| 0 <= j < ts@.len() implies #[trigger] w0.view()[x].contains_key(ts@[j]) by {
                        assert(j == 0);
                    }
                }
            }
        }
    }
    let s = collect_reachable(world, &roots);
    let ghost s0 = s@;
    let mut i: usize = 0;
    while i < s.len()
        invariant
            world.wf(),
            s@ == s0,
            reachable_listing(w0, marked(w0, td), s0),
            0 <= i <= s0.len(),
            World::frame_kept(w0, *world),
            world.view().dom() == w0.view().dom(),
            forall|x: Entity| #[trigger] w0.view().contains_key(x) ==> {
                &&& world.view()[x].contains_key(td) == (w0.view()[x].contains_key(td) || s0.take(i as int).contains(x))
                &&& world.view()[x].remove(td) == w0.view()[x].remove(td)
                &&& w0.view()[x].contains_key(td) ==> world.view()[x][td] == w0.view()[x][td]
            },
        decreases s0.len() - i,
    {
        let x = s[i];
        let ghost wa = *world;
        proof {
            assert(w0.view().contains_key(x));
            let t0 = s0.take(i as int);
            let t1 = s0.take(i as int + 1);
            assert(t1 =~= t0.push(x));
            assert forall|y: Entity| #[trigger] t1.contains(y) == (t0.contains(y) || y == x) by {
                if t0.contains(y) {
                    let k = choose|k: int| 0 <= k < t0.len() && t0[k] == y;
                    assert(t1[k] == y);
                }
                if y == x {
                    assert(t1[i as int] == x);
                }
                if t1.contains(y) && y != x {
                    let k = choose|k: int| 0 <= k < t1.len() && t1[k] == y;
                    assert(k < i);
                    assert(t0[k] == y);
                }
            }
        }
        match world.contains_id(x, &td) {
            Ok(false) => {
                let v = ComponentValue::Other(ErasedBox::new(TransformDirty));
                let _ = world.add_value(x, td, ComponentDescriptor::of::<TransformDirty>(false), v);
                proof {
                    assert forall|y: Entity| #[trigger] w0.view().contains_key(y) implies {
                        &&& world.view()[y].contains_key(td) == (w0.view()[y].contains_key(td) || s0.take(i as int + 1).contains(y))
                        &&& world.view()[y].remove(td) == w0.view()[y].remove(td)
                        &&& w0.view()[y].contains_key(td) ==> world.view()[y][td] == w0.view()[y][td]
                    } by {
                        assert(wa.view().contains_key(y));
                        if y == x {
                            assert(world.view()[y].remove(td) =~= wa.view()[y].remove(td));
                        }
                    }
                    assert(world.view().dom() =~= w0.view().dom());
                }
            },
            _ => {
                proof {
                    assert forall|y: Entity| #[trigger] w0.view().contains_key(y) implies
                        world.view()[y].contains_key(td) == (w0.view()[y].contains_key(td) || s0.take(i as int + 1).contains(y)) by {
                        assert(wa.view().contains_key(y));
                    }
                }
            },
        }
        i = i + 1;
    }
    proof {
        assert(s0.take(s0.len() as int) =~= s0);
        assert(spread_marker(w0, *world, td, s0));
    }
}

} // verus!
