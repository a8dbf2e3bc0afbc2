//! The script-facing GO wrapper: a generational, location-cached handle that
//! validates before every access and never holds a bare pointer.
use vstd::prelude::*;
use std::any::TypeId;

use crate::entity::Entity;
use crate::error::WorldError;
use crate::world::World;

use super::hierarchy::{Children, Parent};
use super::scene_ref::SceneRef;

verus! {

/// Cached data position of a game object.
#[derive(Clone, Copy, Debug, PartialEq, Eq, Structural)]
pub struct GoLoc {
    /// Archetype id holding the entity.
    pub arch: usize,
    /// Row within the archetype.
    pub row: u32,
    /// Generation mirror, to detect slot reuse after destroy.
    pub generation: u32,
}

/// A script-identifiable handle to a game object.
///
/// Caches the data position so the stable access path is O(1); every access
/// is validated by generation + position and re-resolved on a mismatch. It
/// never holds a bare pointer (no cross-frame pointer caching).
#[derive(Clone, Copy, Debug, PartialEq, Eq, Structural)]
pub struct GoHandle {
    pub(crate) entity: Entity,
    pub(crate) loc: Option<GoLoc>,
}

impl GoHandle {
    /// The handle's entity.
    pub closed spec fn entity_spec(&self) -> Entity {
        self.entity
    }

    /// The handle's cached location.
    pub closed spec fn loc_spec(&self) -> Option<GoLoc> {
        self.loc
    }

    /// A handle for `entity` with a cached location.
    pub(crate) fn new(entity: Entity, loc: Option<GoLoc>) -> (h: Self)
        ensures
            h.entity_spec() == entity,
            h.loc_spec() == loc,
    {
        GoHandle { entity, loc }
    }

    /// The cached location.
    pub(crate) fn loc(&self) -> (l: Option<GoLoc>)
        ensures
            l == self.loc_spec(),
    {
        self.loc
    }

    /// The underlying entity.
    pub fn entity(&self) -> (e: Entity)
        ensures
            e == self.entity_spec(),
    {
        self.entity
    }
}

/// The character of a decimal digit.
pub open spec fn digit_char(d: nat) -> char {
    (d + 48) as char
}

/// The decimal notation of `n`, most significant digit first.
pub open spec fn decimal_digits(n: nat) -> Seq<char>
    decreases n,
{
    if n < 10 {
        seq![digit_char(n)]
    } else {
        decimal_digits(n / 10).push(digit_char(n % 10))
    }
}

/// The notation of one decimal digit.
fn digit_str(d: u64) -> (s: &'static str)
    requires
        d < 10,
    ensures
        s@ == seq![digit_char(d as nat)],
{
    proof {
        reveal_strlit("0");
        reveal_strlit("1");
        reveal_strlit("2");
        reveal_strlit("3");
        reveal_strlit("4");
        reveal_strlit("5");
        reveal_strlit("6");
        reveal_strlit("7");
        reveal_strlit("8");
        reveal_strlit("9");
    }
    let s = if d == 0 {
        "0"
    } else if d == 1 {
        "1"
    } else if d == 2 {
        "2"
    } else if d == 3 {
        "3"
    } else if d == 4 {
        "4"
    } else if d == 5 {
        "5"
    } else if d == 6 {
        "6"
    } else if d == 7 {
        "7"
    } else if d == 8 {
        "8"
    } else {
        "9"
    };
    assert(s@ =~= seq![digit_char(d as nat)]);
    s
}

/// The decimal notation of `n`.
pub fn decimal(n: u64) -> (s: String)
    ensures
        s@ == decimal_digits(n as nat),
    decreases n,
{
    if n < 10 {
        String::from_str(digit_str(n))
    } else {
        let head = decimal(n / 10);
        let s = head.concat(digit_str(n % 10));
        assert(s@ =~= decimal_digits(n as nat));
        s
    }
}

/// How a cached location is written: `None`, or `Some((arch, row, generation))`.
pub open spec fn loc_text(loc: Option<GoLoc>) -> Seq<char> {
    match loc {
        None => "None"@,
        Some(l) => "Some(("@ + decimal_digits(l.arch as nat) + ", "@ + decimal_digits(l.row as nat) + ", "@
            + decimal_digits(l.generation as nat) + "))"@,
    }
}

impl GoHandle {
    /// The handle written as `GoHandle(index@location)`.
    pub fn text(&self) -> (t: String)
        ensures
            t@ == "GoHandle("@ + decimal_digits(self.entity_spec().idx() as nat) + "@"@ + loc_text(self.loc_spec()) + ")"@,
    {
        let head = String::from_str("GoHandle(").concat(decimal(self.entity.index() as u64).as_str()).concat("@");
        let body = match self.loc {
            None => head.concat("None"),
            Some(l) => head
                .concat("Some((")
                .concat(decimal(l.arch as u64).as_str())
                .concat(", ")
                .concat(decimal(l.row as u64).as_str())
                .concat(", ")
                .concat(decimal(l.generation as u64).as_str())
                .concat("))"),
        };
        body.concat(")")
    }
}

/// Errors from [`crate::go::scene::Scene::go_view`].
#[derive(Debug, Clone, Copy, PartialEq, Eq, Structural)]
pub enum GoHandleError {
    /// The entity was destroyed (or the handle's generation no longer matches).
    GoHandleStale,
    /// A member of the component trio (`Transform`, `SceneRef`, `Parent`)
    /// is missing at the entity's position.
    MissingComponent,
}

impl GoHandleError {
    /// Human-readable description of the error.
    pub fn message(&self) -> (m: String)
        ensures
            m@ == (match self {
                GoHandleError::GoHandleStale => "go handle is stale (entity destroyed)"@,
                GoHandleError::MissingComponent => "go handle misses a component of its trio"@,
            }),
    {
        match self {
            GoHandleError::GoHandleStale => String::from_str("go handle is stale (entity destroyed)"),
            GoHandleError::MissingComponent => String::from_str("go handle misses a component of its trio"),
        }
    }
}

/// A borrowed view over a game object's component trio (no bare pointers).
///
/// Constructed by `Scene::go_view`: it validates the cached location and reuses
/// it for O(1) component access (or re-resolves on a stale location). Each
/// accessor re-derives the reference from the validated position.
pub struct GoView<'a> {
    world: &'a mut World,
    arch: usize,
    row: usize,
    entity: Entity,
}

impl<'a> GoView<'a> {
    /// The viewed world.
    pub closed spec fn world_spec(&self) -> World {
        *self.world
    }

    /// The validated position.
    pub closed spec fn position(&self) -> (usize, usize) {
        (self.arch, self.row)
    }

    /// The entity backing the view.
    pub closed spec fn entity_spec(&self) -> Entity {
        self.entity
    }

    /// A view at a validated position.
    pub(crate) fn new(world: &'a mut World, arch: usize, row: usize, entity: Entity) -> (v: Self)
        ensures
            v.world_spec() == *old(world),
            v.position() == (arch, row),
            v.entity_spec() == entity,
    {
        GoView { world, arch, row, entity }
    }

    /// The entity backing this view.
    pub fn entity(&self) -> (e: Entity)
        ensures
            e == self.entity_spec(),
    {
        self.entity
    }

    /// Shared access to the scene reference relation (`None` only when the
    /// stored value is not a `SceneRef`).
    pub fn scene_ref(&self) -> (r: Option<&SceneRef>)
        requires
            self.world_spec().wf(),
        ensures
            exists|t: TypeId| #[trigger] self.world_spec().found_only_if_stored(self.position().0, self.position().1, t, r is Some),
    {
        let r = self.world.get_at::<SceneRef>(self.arch, self.row);
        proof {
            let t = choose|t: TypeId| #[trigger] self.world.found_only_if_stored(self.arch, self.row, t, r is Some);
            assert(self.world_spec().found_only_if_stored(self.position().0, self.position().1, t, r is Some));
        }
        r
    }

    /// Shared access to the parent edge.
    pub fn parent(&self) -> (r: Option<&Parent>)
        requires
            self.world_spec().wf(),
        ensures
            exists|t: TypeId| #[trigger] self.world_spec().found_only_if_stored(self.position().0, self.position().1, t, r is Some),
    {
        let r = self.world.get_at::<Parent>(self.arch, self.row);
        proof {
            let t = choose|t: TypeId| #[trigger] self.world.found_only_if_stored(self.arch, self.row, t, r is Some);
            assert(self.world_spec().found_only_if_stored(self.position().0, self.position().1, t, r is Some));
        }
        r
    }

    /// Shared access to the children edge (absent for a leaf).
    pub fn children(&self) -> (r: Option<&Children>)
        requires
            self.world_spec().wf(),
        ensures
            exists|t: TypeId| #[trigger] self.world_spec().found_only_if_stored(self.position().0, self.position().1, t, r is Some),
    {
        let r = self.world.get_at::<Children>(self.arch, self.row);
        proof {
            let t = choose|t: TypeId| #[trigger] self.world.found_only_if_stored(self.arch, self.row, t, r is Some);
            assert(self.world_spec().found_only_if_stored(self.position().0, self.position().1, t, r is Some));
        }
        r
    }

    /// Mutable access to a component of the viewed game object (the local
    /// transform is `T = Transform`).
    pub fn component_mut<T: 'static>(&mut self) -> (r: Option<&mut T>)
        requires
            old(self).world_spec().wf(),
        ensures
            !old(self).world_spec().view().contains_key(old(self).entity_spec()) ==> r is None,
            exists|t: TypeId| #[trigger] old(self).world_spec().absent_means(old(self).entity_spec(), t, Ok::<Option<&mut T>, WorldError>(r)),
    {
        let ghost w0 = *self.world;
        let e = self.entity;
        assert(w0 == old(self).world_spec() && e == old(self).entity_spec());
        let res = self.world.get_mut::<T>(e);
        let ghost t = choose|t: TypeId| #[trigger] w0.absent_means(e, t, res);
        let r = match res {
            Ok(r) => r,
            Err(_) => None,
        };
        assert(w0.absent_means(e, t, Ok::<Option<&mut T>, WorldError>(r)));
        r
    }
}

} // verus!
