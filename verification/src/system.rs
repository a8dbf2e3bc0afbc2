//! Function-style systems with declared access metadata.
use vstd::prelude::*;

use crate::world::World;

verus! {

/// The phase a system registers to.
#[derive(Clone, Copy, PartialEq, Eq, Hash, Debug, Structural)]
pub enum Stage {
    /// Fixed-step update (0..N per rendered frame).
    FixedUpdate,
    /// Standard per-rendered-frame update.
    Update,
    /// Standard per-rendered-frame late update.
    PostUpdate,
}

/// Access kind for a component or resource name.
#[derive(Clone, Copy, PartialEq, Eq, Debug, Structural)]
pub enum AccessKind {
    Read,
    Write,
}

/// Whether two stages are the same.
pub fn same_stage(a: Stage, b: Stage) -> (r: bool)
    ensures
        r == (a == b),
{
    match (a, b) {
        (Stage::FixedUpdate, Stage::FixedUpdate) => true,
        (Stage::Update, Stage::Update) => true,
        (Stage::PostUpdate, Stage::PostUpdate) => true,
        _ => false,
    }
}

/// Whether two names are the same text.
pub fn same_name(a: &str, b: &str) -> (r: bool)
    ensures
        r == (a@ == b@),
{
    let x = a.as_bytes();
    let y = b.as_bytes();
    proof {
        vstd::utf8::encode_utf8_decode_utf8(a@);
        vstd::utf8::encode_utf8_decode_utf8(b@);
    }
    if x.len() != y.len() {
        return false;
    }
    let mut i: usize = 0;
    while i < x.len()
        invariant
            x@.len() == y@.len(),
            x@ == vstd::utf8::encode_utf8(a@),
            y@ == vstd::utf8::encode_utf8(b@),
            0 <= i <= x@.len(),
            forall|j: int| 0 <= j < i ==> x@[j] == y@[j],
        decreases x@.len() - i,
    {
        if x[i] != y[i] {
            return false;
        }
        i = i + 1;
    }
    assert(x@ =~= y@);
    true
}

/// Whether an optional name is `n`.
pub fn names(o: Option<&str>, n: &str) -> (r: bool)
    ensures
        r == (o matches Some(x) && x@ == n@),
{
    match o {
        Some(x) => same_name(x, n),
        None => false,
    }
}

/// The closure a system runs.
///
/// A `Box<dyn FnMut(&mut World)>`, kept opaque.
#[verifier::external_body]
pub struct SystemFn {
    f: Box<dyn FnMut(&mut World)>,
}

impl SystemFn {
    /// Boxes a closure (`Box::new`). The closure must keep a consistent
    /// world consistent. Nothing is claimed of the opaque result.
    #[verifier::external_body]
    pub(crate) fn new<F: FnMut(&mut World) + 'static>(f: F) -> SystemFn
        requires
            forall|x: &mut World| (*x).wf() ==> call_requires(f, (x,)),
            forall|x: &mut World| #[trigger] call_ensures(f, (x,), ()) ==> (*final(x)).wf(),
    {
        SystemFn { f: Box::new(f) }
    }

    /// Calls the boxed closure (`FnMut::call_mut`) on the world. Claimed:
    /// the world stays consistent, which is what [`SystemFn::new`] required
    /// of every closure it boxed. Nothing else is claimed of what the
    /// closure does.
    #[verifier::external_body]
    pub(crate) fn call(&mut self, world: &mut World)
        requires
            old(world).wf(),
        ensures
            final(world).wf(),
    {
        (self.f)(world)
    }
}

/// The scheduling metadata of a system, as plain values.
pub struct SystemMeta {
    pub name: Seq<char>,
    pub stage: Stage,
    pub access: Seq<(Seq<char>, AccessKind)>,
    pub before: Option<Seq<char>>,
    pub after: Option<Seq<char>>,
}

/// The text of an optional name.
pub open spec fn opt_text(o: Option<&'static str>) -> Option<Seq<char>> {
    match o {
        Some(x) => Some(x@),
        None => None,
    }
}

/// A function-style system: a closure plus scheduling metadata.
///
/// Access metadata drives the conflict detection in [`crate::schedule::Schedule`];
/// systems declare the component/resource names they touch.
pub struct System {
    name: &'static str,
    stage: Stage,
    access: Vec<(&'static str, AccessKind)>,
    before: Option<&'static str>,
    after: Option<&'static str>,
    run: SystemFn,
}

impl System {
    /// The system's scheduling metadata.
    pub open spec fn meta(&self) -> SystemMeta {
        SystemMeta {
            name: self.name_text(),
            stage: self.stage_spec(),
            access: self.access_spec().map_values(|p: (&'static str, AccessKind)| (p.0@, p.1)),
            before: opt_text(self.before_spec()),
            after: opt_text(self.after_spec()),
        }
    }

    /// The system's name.
    pub closed spec fn name_text(&self) -> Seq<char> {
        self.name@
    }

    /// The system's stage.
    pub closed spec fn stage_spec(&self) -> Stage {
        self.stage
    }

    /// The declared accesses as stored.
    pub closed spec fn access_spec(&self) -> Seq<(&'static str, AccessKind)> {
        self.access@
    }

    /// The declared `before` relation.
    pub closed spec fn before_spec(&self) -> Option<&'static str> {
        self.before
    }

    /// The declared `after` relation.
    pub closed spec fn after_spec(&self) -> Option<&'static str> {
        self.after
    }

    /// Creates a system with no declared access.
    pub fn new<F: FnMut(&mut World) + 'static>(name: &'static str, stage: Stage, run: F) -> (s: Self)
        requires
            forall|x: &mut World| (*x).wf() ==> call_requires(run, (x,)),
            forall|x: &mut World| #[trigger] call_ensures(run, (x,), ()) ==> (*final(x)).wf(),
        ensures
            s.meta().name == name@,
            s.meta().stage == stage,
            s.access_spec() == Seq::<(&'static str, AccessKind)>::empty(),
            s.meta().before is None,
            s.meta().after is None,
    {
        System { name, stage, access: Vec::new(), before: None, after: None, run: SystemFn::new(run) }
    }

    /// Creates a system with access metadata and optional explicit ordering.
    pub fn with_spec<F: FnMut(&mut World) + 'static>(
        name: &'static str,
        stage: Stage,
        access: &[(&'static str, AccessKind)],
        before: Option<&'static str>,
        after: Option<&'static str>,
        run: F,
    ) -> (s: Self)
        requires
            forall|x: &mut World| (*x).wf() ==> call_requires(run, (x,)),
            forall|x: &mut World| #[trigger] call_ensures(run, (x,), ()) ==> (*final(x)).wf(),
        ensures
            s.meta().name == name@,
            s.meta().stage == stage,
            s.access_spec() == access@,
            s.meta().before == opt_text(before),
            s.meta().after == opt_text(after),
    {
        let mut v: Vec<(&'static str, AccessKind)> = Vec::new();
        let mut i: usize = 0;
        while i < access.len()
            invariant
                0 <= i <= access@.len(),
                v@ == access@.take(i as int),
            decreases access@.len() - i,
        {
            v.push(access[i]);
            i = i + 1;
            assert(v@ =~= access@.take(i as int));
        }
        assert(access@.take(access@.len() as int) =~= access@);
        System { name, stage, access: v, before, after, run: SystemFn::new(run) }
    }

    pub fn name(&self) -> (r: &'static str)
        ensures
            r@ == self.meta().name,
    {
        self.name
    }

    pub fn stage(&self) -> (r: Stage)
        ensures
            r == self.meta().stage,
    {
        self.stage
    }

    pub fn access(&self) -> (r: &[(&'static str, AccessKind)])
        ensures
            r@ == self.access_spec(),
    {
        self.access.as_slice()
    }

    pub fn before(&self) -> (r: Option<&'static str>)
        ensures
            opt_text(r) == self.meta().before,
    {
        self.before
    }

    pub fn after(&self) -> (r: Option<&'static str>)
        ensures
            opt_text(r) == self.meta().after,
    {
        self.after
    }

    /// Runs this system against the world.
    pub fn run(&mut self, world: &mut World)
        requires
            old(world).wf(),
        ensures
            final(world).wf(),
            final(self).meta() == old(self).meta(),
    {
        self.run.call(world);
    }
}

} // verus!
