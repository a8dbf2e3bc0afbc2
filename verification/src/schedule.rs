//! Schedule: stable topological ordering with conflict detection.
use vstd::prelude::*;

use crate::system::{names, same_name, same_stage, AccessKind, Stage, System, SystemMeta};
use crate::world::World;

verus! {

/// Errors raised while building a schedule.
#[derive(Debug, Clone, PartialEq, Eq)]
pub enum ScheduleError {
    /// Two systems access the same component/resource with a write involved
    /// and no explicit ordering relation exists.
    UnorderedConflict { stage: Stage, a: &'static str, b: &'static str, key: &'static str },
    /// Explicit before/after relations contain a cycle.
    Cycle { stage: Stage },
}

/// The name a stage is written with.
pub open spec fn stage_name(stage: Stage) -> Seq<char> {
    match stage {
        Stage::FixedUpdate => "FixedUpdate"@,
        Stage::Update => "Update"@,
        Stage::PostUpdate => "PostUpdate"@,
    }
}

/// The name a stage is written with.
pub fn stage_label(stage: Stage) -> (s: &'static str)
    ensures
        s@ == stage_name(stage),
{
    match stage {
        Stage::FixedUpdate => "FixedUpdate",
        Stage::Update => "Update",
        Stage::PostUpdate => "PostUpdate",
    }
}

impl ScheduleError {
    /// The human-readable description of the error.
    pub open spec fn describe(&self) -> Seq<char> {
        match self {
            ScheduleError::UnorderedConflict { stage, a, b, key } => "conflict on '"@ + key@ + "' between systems '"@ + a@
                + "' and '"@ + b@ + "' in "@ + stage_name(*stage) + ": add an explicit before/after relation"@,
            ScheduleError::Cycle { stage } => "cycle detected in explicit ordering of "@ + stage_name(*stage),
        }
    }

    /// Human-readable description of the error.
    pub fn message(&self) -> (m: String)
        ensures
            m@ == self.describe(),
    {
        match self {
            ScheduleError::UnorderedConflict { stage, a, b, key } => String::from_str("conflict on '")
                .concat(key)
                .concat("' between systems '")
                .concat(a)
                .concat("' and '")
                .concat(b)
                .concat("' in ")
                .concat(stage_label(*stage))
                .concat(": add an explicit before/after relation"),
            ScheduleError::Cycle { stage } => String::from_str("cycle detected in explicit ordering of ").concat(stage_label(*stage)),
        }
    }
}

// ── the model ────────────────────────────────────────────────────────────

/// `a` declares itself before `b`, or `b` declares itself after `a`.
pub open spec fn declared_before(a: SystemMeta, b: SystemMeta) -> bool {
    a.before == Some(b.name) || b.after == Some(a.name)
}

/// The explicit relation between two systems: `Some(true)` when `a` runs
/// first, `Some(false)` when `b` does, `None` when unordered (no relation,
/// or relations both ways).
pub open spec fn relation_spec(a: SystemMeta, b: SystemMeta) -> Option<bool> {
    let ab = declared_before(a, b);
    let ba = declared_before(b, a);
    if ab && !ba {
        Some(true)
    } else if ba && !ab {
        Some(false)
    } else {
        None
    }
}

/// Access `i` of `a` and access `j` of `b` name the same key, one writing.
pub open spec fn conflict_at(a: SystemMeta, b: SystemMeta, i: int, j: int) -> bool {
    &&& 0 <= i < a.access.len()
    &&& 0 <= j < b.access.len()
    &&& a.access[i].0 == b.access[j].0
    &&& (a.access[i].1 == AccessKind::Write || b.access[j].1 == AccessKind::Write)
}

/// Two systems touch one key with a write involved.
pub open spec fn conflicting(a: SystemMeta, b: SystemMeta) -> bool {
    exists|i: int, j: int| conflict_at(a, b, i, j)
}

/// Lexicographic order on pairs.
pub open spec fn pair_before(q: (int, int), p: (int, int)) -> bool {
    q.0 < p.0 || (q.0 == p.0 && q.1 < p.1)
}

/// The metadata of every system.
pub open spec fn metas(systems: Seq<System>) -> Seq<SystemMeta> {
    systems.map_values(|s: System| s.meta())
}

/// The indices of the systems of `stage` among the first `n`, ascending.
pub open spec fn members(ms: Seq<SystemMeta>, stage: Stage, n: int) -> Seq<int>
    decreases n,
{
    if n <= 0 {
        Seq::empty()
    } else if ms[n - 1].stage == stage {
        members(ms, stage, n - 1).push(n - 1)
    } else {
        members(ms, stage, n - 1)
    }
}

/// The systems of `stage`, ascending by registration.
pub open spec fn stage_members(ms: Seq<SystemMeta>, stage: Stage) -> Seq<int> {
    members(ms, stage, ms.len() as int)
}

/// `x` must run before `y`.
pub open spec fn edge(ms: Seq<SystemMeta>, x: int, y: int) -> bool {
    x != y && relation_spec(ms[x], ms[y]) == Some(true)
}

/// Positions `pa < pb` of `mem` name an unordered, conflicting pair.
pub open spec fn bad_pair(ms: Seq<SystemMeta>, mem: Seq<int>, pa: int, pb: int) -> bool {
    &&& 0 <= pa < pb < mem.len()
    &&& relation_spec(ms[mem[pa]], ms[mem[pb]]) is None
    &&& conflicting(ms[mem[pa]], ms[mem[pb]])
}

/// No pair of `mem` before `p` is bad.
pub open spec fn no_bad_before(ms: Seq<SystemMeta>, mem: Seq<int>, p: (int, int)) -> bool {
    forall|qa: int, qb: int| #![trigger bad_pair(ms, mem, qa, qb)] pair_before((qa, qb), p) ==> !bad_pair(ms, mem, qa, qb)
}

/// Position `i` of `rem` has no incoming edge from any remaining system.
pub open spec fn ready_at(ms: Seq<SystemMeta>, rem: Seq<int>, i: int) -> bool {
    &&& 0 <= i < rem.len()
    &&& forall|j: int| 0 <= j < rem.len() ==> !edge(ms, #[trigger] rem[j], rem[i])
}

/// The first ready position of `rem` at or after `k`.
pub open spec fn first_ready(ms: Seq<SystemMeta>, rem: Seq<int>, k: int) -> Option<int>
    decreases rem.len() - k,
{
    if k < 0 || k >= rem.len() {
        None
    } else if ready_at(ms, rem, k) {
        Some(k)
    } else {
        first_ready(ms, rem, k + 1)
    }
}

/// The stable topological order of `rem`: repeatedly the earliest system
/// without a pending predecessor; `None` on a cycle.
pub open spec fn topo(ms: Seq<SystemMeta>, rem: Seq<int>) -> Option<Seq<int>>
    decreases rem.len(),
{
    if rem.len() == 0 {
        Some(Seq::empty())
    } else {
        match first_ready(ms, rem, 0) {
            Some(i) => if 0 <= i < rem.len() {
                match topo(ms, rem.remove(i)) {
                    Some(s) => Some(seq![rem[i]] + s),
                    None => None,
                }
            } else {
                None
            },
            None => None,
        }
    }
}

/// `p` followed by the order `o`, when there is one.
pub open spec fn then_order(p: Seq<int>, o: Option<Seq<int>>) -> Option<Seq<int>> {
    match o {
        Some(s) => Some(p + s),
        None => None,
    }
}

/// Whether a stage builds: no unordered conflict and no cycle.
pub open spec fn stage_builds(ms: Seq<SystemMeta>, stage: Stage) -> bool {
    let mem = stage_members(ms, stage);
    &&& forall|pa: int, pb: int| !#[trigger] bad_pair(ms, mem, pa, pb)
    &&& topo(ms, mem) is Some
}

/// `e` is the error that building `stage` reports.
pub open spec fn stage_error(ms: Seq<SystemMeta>, stage: Stage, e: ScheduleError) -> bool {
    let mem = stage_members(ms, stage);
    match e {
        ScheduleError::UnorderedConflict { stage: s, a, b, key } => {
            &&& s == stage
            &&& exists|pa: int, pb: int, i: int, j: int| {
                &&& #[trigger] bad_pair(ms, mem, pa, pb)
                &&& no_bad_before(ms, mem, (pa, pb))
                &&& a@ == ms[mem[pa]].name
                &&& b@ == ms[mem[pb]].name
                &&& #[trigger] conflict_at(ms[mem[pa]], ms[mem[pb]], i, j)
                &&& key@ == ms[mem[pa]].access[i].0
            }
        },
        ScheduleError::Cycle { stage: s } => {
            &&& s == stage
            &&& forall|pa: int, pb: int| !#[trigger] bad_pair(ms, mem, pa, pb)
            &&& topo(ms, mem) is None
        },
    }
}

/// The stages in the order they are compiled and run each frame.
pub open spec fn stage_at(k: int) -> Stage {
    if k == 0 { Stage::FixedUpdate } else if k == 1 { Stage::Update } else { Stage::PostUpdate }
}

// ── executable relations ─────────────────────────────────────────────────

/// Checks whether two systems conflict on a shared access key, returning
/// the first key (by `a`'s then `b`'s declaration order).
fn conflicts(a: &System, b: &System) -> (r: Option<&'static str>)
    ensures
        r is None <==> !conflicting(a.meta(), b.meta()),
        r matches Some(k) ==> exists|i: int, j: int| {
            &&& #[trigger] conflict_at(a.meta(), b.meta(), i, j)
            &&& k@ == a.meta().access[i].0
        },
{
    let aa = a.access();
    let bb = b.access();
    proof {
        assert(a.meta().access.len() == aa@.len());
        assert(b.meta().access.len() == bb@.len());
    }
    let mut i: usize = 0;
    while i < aa.len()
        invariant
            aa@ == a.access_spec(),
            bb@ == b.access_spec(),
            a.meta().access == aa@.map_values(|p: (&'static str, AccessKind)| (p.0@, p.1)),
            b.meta().access == bb@.map_values(|p: (&'static str, AccessKind)| (p.0@, p.1)),
            0 <= i <= aa@.len(),
            forall|i2: int, j2: int| 0 <= i2 < i ==> !conflict_at(a.meta(), b.meta(), i2, j2),
        decreases aa@.len() - i,
    {
        let mut j: usize = 0;
        while j < bb.len()
            invariant
                aa@ == a.access_spec(),
                bb@ == b.access_spec(),
                a.meta().access == aa@.map_values(|p: (&'static str, AccessKind)| (p.0@, p.1)),
                b.meta().access == bb@.map_values(|p: (&'static str, AccessKind)| (p.0@, p.1)),
                0 <= i < aa@.len(),
                0 <= j <= bb@.len(),
                forall|i2: int, j2: int| 0 <= i2 < i ==> !conflict_at(a.meta(), b.meta(), i2, j2),
                forall|j2: int| 0 <= j2 < j ==> !conflict_at(a.meta(), b.meta(), i as int, j2),
            decreases bb@.len() - j,
        {
            let (an, ak) = aa[i];
            let (bn, bk) = bb[j];
            let w = match ak {
                AccessKind::Write => true,
                AccessKind::Read => match bk {
                    AccessKind::Write => true,
                    AccessKind::Read => false,
                },
            };
            if same_name(an, bn) && w {
                assert(conflict_at(a.meta(), b.meta(), i as int, j as int));
                return Some(an);
            }
            j = j + 1;
        }
        i = i + 1;
    }
    None
}

/// The explicit relation between two systems.
fn relation(a: &System, b: &System) -> (r: Option<bool>)
    ensures
        r == relation_spec(a.meta(), b.meta()),
{
    let a_before_b = names(a.before(), b.name()) || names(b.after(), a.name());
    let b_before_a = names(b.before(), a.name()) || names(a.after(), b.name());
    if a_before_b && !b_before_a {
        Some(true)
    } else if b_before_a && !a_before_b {
        Some(false)
    } else {
        None
    }
}


/// A sequence of indices as integers.
pub open spec fn ints(v: Seq<usize>) -> Seq<int> {
    v.map_values(|i: usize| i as int)
}

/// The indices of the systems of `stage`, ascending.
fn stage_indices(systems: &Vec<System>, stage: Stage) -> (r: Vec<usize>)
    ensures
        ints(r@) == stage_members(metas(systems@), stage),
        forall|k: int| 0 <= k < r@.len() ==> #[trigger] r@[k] < systems@.len(),
{
    let ghost ms = metas(systems@);
    let mut out: Vec<usize> = Vec::new();
    let mut i: usize = 0;
    assert(ints(out@) =~= members(ms, stage, 0));
    while i < systems.len()
        invariant
            ms == metas(systems@),
            0 <= i <= systems@.len(),
            ints(out@) == members(ms, stage, i as int),
            forall|k: int| 0 <= k < out@.len() ==> #[trigger] out@[k] < i,
        decreases systems@.len() - i,
    {
        let st = systems[i].stage();
        assert(ms[i as int] == systems@[i as int].meta());
        if same_stage(st, stage) {
            out.push(i);
        }
        i = i + 1;
        assert(ints(out@) =~= members(ms, stage, i as int));
    }
    out
}

/// `(pa, pb)` is the first bad pair of `m`, `key` a key they conflict on.
pub open spec fn first_bad(ms: Seq<SystemMeta>, m: Seq<int>, pa: int, pb: int, key: Seq<char>) -> bool {
    &&& bad_pair(ms, m, pa, pb)
    &&& no_bad_before(ms, m, (pa, pb))
    &&& exists|i: int, j: int| {
        &&& #[trigger] conflict_at(ms[m[pa]], ms[m[pb]], i, j)
        &&& key == ms[m[pa]].access[i].0
    }
}

/// The first unordered conflicting pair of `mem` (by positions), with the
/// conflicting key.
fn first_bad_pair(systems: &Vec<System>, mem: &Vec<usize>) -> (r: Option<(usize, usize, &'static str)>)
    requires
        forall|k: int| 0 <= k < mem@.len() ==> #[trigger] mem@[k] < systems@.len(),
    ensures
        r is None <==> forall|pa: int, pb: int| !#[trigger] bad_pair(metas(systems@), ints(mem@), pa, pb),
        r is Some ==> first_bad(metas(systems@), ints(mem@), r->Some_0.0 as int, r->Some_0.1 as int, r->Some_0.2@),
{
    let ghost ms = metas(systems@);
    let ghost m = ints(mem@);
    let mut pa: usize = 0;
    while pa < mem.len()
        invariant
            ms == metas(systems@),
            m == ints(mem@),
            forall|k: int| 0 <= k < mem@.len() ==> #[trigger] mem@[k] < systems@.len(),
            0 <= pa <= mem@.len(),
            forall|qa: int, qb: int| 0 <= qa < pa ==> !#[trigger] bad_pair(ms, m, qa, qb),
        decreases mem@.len() - pa,
    {
        let mut pb: usize = pa + 1;
        while pb < mem.len()
            invariant
                ms == metas(systems@),
                m == ints(mem@),
                forall|k: int| 0 <= k < mem@.len() ==> #[trigger] mem@[k] < systems@.len(),
                0 <= pa < mem@.len(),
                pa < pb <= mem@.len(),
                forall|qa: int, qb: int| 0 <= qa < pa ==> !#[trigger] bad_pair(ms, m, qa, qb),
                forall|qb: int| qb < pb ==> !#[trigger] bad_pair(ms, m, pa as int, qb),
            decreases mem@.len() - pb,
        {
            let a = &systems[mem[pa]];
            let b = &systems[mem[pb]];
            proof {
                assert(ms[m[pa as int]] == a.meta());
                assert(ms[m[pb as int]] == b.meta());
            }
            if relation(a, b).is_none() {
                match conflicts(a, b) {
                    Some(key) => {
                        proof {
                            let (i, j) = choose|i: int, j: int| {
                                &&& #[trigger] conflict_at(a.meta(), b.meta(), i, j)
                                &&& key@ == a.meta().access[i].0
                            };
                            assert(conflict_at(ms[m[pa as int]], ms[m[pb as int]], i, j));
                            assert(bad_pair(ms, m, pa as int, pb as int));
                            assert forall|qa: int, qb: int| #![trigger bad_pair(ms, m, qa, qb)]
                                pair_before((qa, qb), (pa as int, pb as int)) implies !bad_pair(ms, m, qa, qb) by {
                                if qa == pa {
                                }
                            }
                        }
                        assert(first_bad(ms, m, pa as int, pb as int, key@));
                        return Some((pa, pb, key));
                    },
                    None => {},
                }
            }
            pb = pb + 1;
        }
        pa = pa + 1;
    }
    None
}

/// Whether position `i` of `rem` has no incoming edge from `rem`.
fn is_ready(systems: &Vec<System>, rem: &Vec<usize>, i: usize) -> (b: bool)
    requires
        i < rem@.len(),
        forall|k: int| 0 <= k < rem@.len() ==> #[trigger] rem@[k] < systems@.len(),
    ensures
        b == ready_at(metas(systems@), ints(rem@), i as int),
{
    let ghost ms = metas(systems@);
    let ghost r = ints(rem@);
    let mut j: usize = 0;
    while j < rem.len()
        invariant
            ms == metas(systems@),
            r == ints(rem@),
            i < rem@.len(),
            forall|k: int| 0 <= k < rem@.len() ==> #[trigger] rem@[k] < systems@.len(),
            0 <= j <= rem@.len(),
            forall|q: int| 0 <= q < j ==> !edge(ms, #[trigger] r[q], r[i as int]),
        decreases rem@.len() - j,
    {
        let x = rem[j];
        let y = rem[i];
        proof {
            assert(ms[x as int] == systems@[x as int].meta());
            assert(ms[y as int] == systems@[y as int].meta());
        }
        if x != y {
            match relation(&systems[x], &systems[y]) {
                Some(true) => {
                    assert(edge(ms, r[j as int], r[i as int]));
                    return false;
                },
                _ => {},
            }
        }
        j = j + 1;
    }
    true
}

/// Stable Kahn topological sort of `mem`: `None` on a cycle.
fn topo_order(systems: &Vec<System>, mem: &Vec<usize>) -> (r: Option<Vec<usize>>)
    requires
        forall|k: int| 0 <= k < mem@.len() ==> #[trigger] mem@[k] < systems@.len(),
    ensures
        r is None ==> topo(metas(systems@), ints(mem@)) is None,
        r matches Some(o) ==> topo(metas(systems@), ints(mem@)) == Some(ints(o@))
            && forall|k: int| 0 <= k < o@.len() ==> #[trigger] o@[k] < systems@.len(),
{
    let ghost ms = metas(systems@);
    let mut remaining: Vec<usize> = Vec::new();
    let mut c: usize = 0;
    while c < mem.len()
        invariant
            0 <= c <= mem@.len(),
            remaining@ == mem@.take(c as int),
        decreases mem@.len() - c,
    {
        remaining.push(mem[c]);
        c = c + 1;
        assert(remaining@ =~= mem@.take(c as int));
    }
    assert(mem@.take(mem@.len() as int) =~= mem@);
    let mut order: Vec<usize> = Vec::new();
    assert(then_order(ints(order@), topo(ms, ints(remaining@))) =~~= topo(ms, ints(mem@))) by {
        assert(ints(order@) =~= Seq::<int>::empty());
        match topo(ms, ints(remaining@)) {
            Some(s) => { assert(Seq::<int>::empty() + s =~= s); },
            None => {},
        }
    }
    while remaining.len() > 0
        invariant
            ms == metas(systems@),
            forall|k: int| 0 <= k < remaining@.len() ==> #[trigger] remaining@[k] < systems@.len(),
            forall|k: int| 0 <= k < order@.len() ==> #[trigger] order@[k] < systems@.len(),
            topo(ms, ints(mem@)) == then_order(ints(order@), topo(ms, ints(remaining@))),
        decreases remaining@.len(),
    {
        let ghost rem = ints(remaining@);
        let mut i: usize = 0;
        let mut found: Option<usize> = None;
        while i < remaining.len()
            invariant_except_break
                found is None,
            invariant
                ms == metas(systems@),
                rem == ints(remaining@),
                forall|k: int| 0 <= k < remaining@.len() ==> #[trigger] remaining@[k] < systems@.len(),
                0 <= i <= remaining@.len(),
                found is None ==> first_ready(ms, rem, 0) == first_ready(ms, rem, i as int),
                found matches Some(p) ==> p < remaining@.len() && first_ready(ms, rem, 0) == Some(p as int),
            ensures
                found is None ==> first_ready(ms, rem, 0) is None,
                found matches Some(p) ==> p < remaining@.len() && first_ready(ms, rem, 0) == Some(p as int),
            decreases remaining@.len() - i,
        {
            if is_ready(systems, &remaining, i) {
                found = Some(i);
                break;
            }
            i = i + 1;
        }
        match found {
            None => {
                return None;
            },
            Some(p) => {
                let ghost order0 = ints(order@);
                let x = remaining.remove(p);
                order.push(x);
                proof {
                    assert(ints(remaining@) =~= rem.remove(p as int));
                    assert(rem[p as int] == x as int);
                    match topo(ms, rem.remove(p as int)) {
                        Some(s) => {
                            assert(ints(order@) =~= order0.push(x as int));
                            assert(order0 + (seq![x as int] + s) =~= order0.push(x as int) + s);
                        },
                        None => {},
                    }
                }
            },
        }
    }
    assert(topo(ms, ints(remaining@)) == Some(Seq::<int>::empty()));
    assert(ints(order@) + Seq::<int>::empty() =~= ints(order@));
    Some(order)
}

/// One stage's compiled order, or the error building it reports.
fn topo_stage(systems: &Vec<System>, stage: Stage) -> (r: Result<Vec<usize>, ScheduleError>)
    ensures
        r is Ok <==> stage_builds(metas(systems@), stage),
        r matches Ok(o) ==> Some(ints(o@)) == topo(metas(systems@), stage_members(metas(systems@), stage))
            && forall|k: int| 0 <= k < o@.len() ==> #[trigger] o@[k] < systems@.len(),
        r matches Err(e) ==> stage_error(metas(systems@), stage, e),
{
    let ghost ms = metas(systems@);
    let idxs = stage_indices(systems, stage);
    match first_bad_pair(systems, &idxs) {
        Some((pa, pb, key)) => {
            let e = ScheduleError::UnorderedConflict {
                stage,
                a: systems[idxs[pa]].name(),
                b: systems[idxs[pb]].name(),
                key,
            };
            proof {
                let m = ints(idxs@);
                assert(ms[m[pa as int]] == systems@[idxs@[pa as int] as int].meta());
                assert(ms[m[pb as int]] == systems@[idxs@[pb as int] as int].meta());
                assert(bad_pair(ms, m, pa as int, pb as int));
                assert(first_bad(ms, m, pa as int, pb as int, key@));
                let (i, j) = choose|i: int, j: int| {
                    &&& #[trigger] conflict_at(ms[m[pa as int]], ms[m[pb as int]], i, j)
                    &&& key@ == ms[m[pa as int]].access[i].0
                };
                assert(stage_error(ms, stage, e));
            }
            Err(e)
        },
        None => {
            match topo_order(systems, &idxs) {
                Some(o) => Ok(o),
                None => Err(ScheduleError::Cycle { stage }),
            }
        },
    }
}

/// A compiled schedule: per-stage stable topological orders.
pub struct Schedule {
    systems: Vec<System>,
    orders: Vec<(Stage, Vec<usize>)>,
    /// The indices of the systems run so far, in the order they ran.
    ran: Ghost<Seq<int>>,
}

/// The position of a stage among the compiled orders.
pub open spec fn stage_index(stage: Stage) -> int {
    match stage {
        Stage::FixedUpdate => 0,
        Stage::Update => 1,
        Stage::PostUpdate => 2,
    }
}

impl Schedule {
    /// The scheduled systems' metadata, in registration order.
    pub closed spec fn metas_spec(&self) -> Seq<SystemMeta> {
        metas(self.systems@)
    }

    /// The compiled order of the `k`-th stage.
    pub closed spec fn order_spec(&self, k: int) -> Seq<int> {
        ints(self.orders@[k].1@)
    }

    /// The compiled order of `stage`.
    pub open spec fn stage_order(&self, stage: Stage) -> Seq<int> {
        self.order_spec(stage_index(stage))
    }

    /// The indices of the systems run so far, oldest first.
    pub closed spec fn runs(&self) -> Seq<int> {
        self.ran@
    }

    /// Internal consistency.
    pub closed spec fn wf(&self) -> bool {
        &&& self.orders@.len() == 3
        &&& forall|k: int| 0 <= k < 3 ==> (#[trigger] self.orders@[k]).0 == stage_at(k)
        &&& forall|k: int, q: int| 0 <= k < 3 && 0 <= q < self.orders@[k].1@.len()
            ==> #[trigger] self.orders@[k].1@[q] < self.systems@.len()
    }

    /// Builds a schedule from a set of systems.
    ///
    /// For each stage the order is a stable topological sort:
    /// explicit `before`/`after` edges are honored; conflicts (same key with
    /// a write on either side) force an explicit relation; unconstrained
    /// systems keep registration order (deterministic). Stages are compiled
    /// in frame order and the first failing stage's error is returned.
    pub fn build(systems: Vec<System>) -> (r: Result<Self, ScheduleError>)
        ensures
            r is Ok <==> forall|k: int| 0 <= k < 3 ==> #[trigger] stage_builds(metas(systems@), stage_at(k)),
            r matches Ok(s) ==> {
                &&& s.wf()
                &&& s.metas_spec() == metas(systems@)
                &&& s.runs() == Seq::<int>::empty()
                &&& forall|k: int| 0 <= k < 3 ==> Some(#[trigger] s.order_spec(k)) == topo(metas(systems@), stage_members(metas(systems@), stage_at(k)))
            },
            r matches Err(e) ==> exists|k: int| {
                &&& 0 <= k < 3
                &&& forall|k2: int| 0 <= k2 < k ==> #[trigger] stage_builds(metas(systems@), stage_at(k2))
                &&& #[trigger] stage_error(metas(systems@), stage_at(k), e)
            },
    {
        let ghost ms = metas(systems@);
        let o0 = match topo_stage(&systems, Stage::FixedUpdate) {
            Ok(o) => o,
            Err(e) => {
                assert(stage_error(ms, stage_at(0), e));
                return Err(e);
            },
        };
        let o1 = match topo_stage(&systems, Stage::Update) {
            Ok(o) => o,
            Err(e) => {
                assert(stage_builds(ms, stage_at(0)));
                assert(stage_error(ms, stage_at(1), e));
                return Err(e);
            },
        };
        let o2 = match topo_stage(&systems, Stage::PostUpdate) {
            Ok(o) => o,
            Err(e) => {
                assert(stage_builds(ms, stage_at(0)));
                assert(stage_builds(ms, stage_at(1)));
                assert(stage_error(ms, stage_at(2), e));
                return Err(e);
            },
        };
        let mut orders: Vec<(Stage, Vec<usize>)> = Vec::new();
        orders.push((Stage::FixedUpdate, o0));
        orders.push((Stage::Update, o1));
        orders.push((Stage::PostUpdate, o2));
        let s = Schedule { systems, orders, ran: Ghost(Seq::empty()) };
        proof {
            assert(stage_builds(ms, stage_at(0)));
            assert(stage_builds(ms, stage_at(1)));
            assert(stage_builds(ms, stage_at(2)));
            assert forall|k: int| 0 <= k < 3 implies Some(#[trigger] s.order_spec(k)) == topo(ms, stage_members(ms, stage_at(k))) by {
                if k == 0 {} else if k == 1 {} else {}
            }
        }
        Ok(s)
    }

    /// Whether the compiled order of `stage` lists no system.
    pub open spec fn stage_is_empty(&self, stage: Stage) -> bool {
        forall|k: int| 0 <= k < 3 && stage_at(k) == stage ==> #[trigger] self.order_spec(k).len() == 0
    }

    /// Runs all systems of one stage in compiled order, flushing the command
    /// queue at every system boundary.
    pub fn run_stage(&mut self, world: &mut World, stage: Stage)
        requires
            old(self).wf(),
            old(world).wf(),
        ensures
            final(self).wf(),
            final(world).wf(),
            old(self).stage_is_empty(stage) ==> *final(world) == *old(world),
            final(self).runs() == old(self).runs() + old(self).stage_order(stage),
            final(self).metas_spec() == old(self).metas_spec(),
            forall|k: int| 0 <= k < 3 ==> #[trigger] final(self).order_spec(k) == old(self).order_spec(k),
    {
        let mut k: usize = 0;
        while k < self.orders.len()
            invariant
                self.wf(),
                world.wf(),
                self.metas_spec() == old(self).metas_spec(),
                forall|q: int| 0 <= q < 3 ==> #[trigger] self.order_spec(q) == old(self).order_spec(q),
                old(self).stage_is_empty(stage) ==> *world == *old(world),
                0 <= k <= 3,
                self.runs() == old(self).runs() + (if k > stage_index(stage) { old(self).stage_order(stage) } else { Seq::<int>::empty() }),
            decreases self.orders@.len() - k,
        {
            if same_stage(self.orders[k].0, stage) {
                let n = self.orders[k].1.len();
                proof {
                    assert(self.orders@[k as int].0 == stage_at(k as int));
                    assert(self.order_spec(k as int).len() == n);
                    assert(k == stage_index(stage));
                    assert(old(self).stage_order(stage).take(0) =~= Seq::<int>::empty());
                }
                let mut q: usize = 0;
                while q < n
                    invariant
                        self.wf(),
                        world.wf(),
                        0 <= k < 3,
                        n == self.orders@[k as int].1@.len(),
                        old(self).stage_is_empty(stage) ==> n == 0 && *world == *old(world),
                        k == stage_index(stage),
                        0 <= q <= n,
                        n == old(self).stage_order(stage).len(),
                        self.runs() == old(self).runs() + old(self).stage_order(stage).take(q as int),
                        self.metas_spec() == old(self).metas_spec(),
                        forall|q2: int| 0 <= q2 < 3 ==> #[trigger] self.order_spec(q2) == old(self).order_spec(q2),
                    decreases n - q,
                {
                    let i = self.orders[k].1[q];
                    let ghost s0 = *self;
                    let ghost sys0 = self.systems@;
                    let ghost ord0 = self.orders@;
                    proof {
                        assert(s0.order_spec(k as int)[q as int] == i as int);
                        assert(old(self).order_spec(k as int) == s0.order_spec(k as int));
                    }
                    self.systems[i].run(world);
                    proof {
                        assert(self.orders@ == ord0);
                        assert(self.systems@ =~= sys0.update(i as int, self.systems@[i as int]));
                        assert(metas(self.systems@) =~= metas(sys0));
                        assert(old(self).stage_order(stage)[q as int] == i as int);
                        self.ran@ = self.ran@.push(i as int);
                    }
                    let _ = world.flush_commands();
                    proof {
                        assert(old(self).stage_order(stage).take(q as int + 1) =~= old(self).stage_order(stage).take(q as int).push(i as int));
                        assert forall|q2: int| 0 <= q2 < 3 implies #[trigger] self.order_spec(q2) == old(self).order_spec(q2) by {
                            assert(self.order_spec(q2) == s0.order_spec(q2));
                        }
                    }
                    q = q + 1;
                }
                proof {
                    assert(old(self).stage_order(stage).take(n as int) =~= old(self).stage_order(stage));
                }
            }
            k = k + 1;
        }
    }

    /// Number of systems in the schedule.
    pub fn system_count(&self) -> (n: usize)
        ensures
            n == self.metas_spec().len(),
    {
        self.systems.len()
    }
}


// ── laws of the compiled order ───────────────────────────────────────────

/// The systems of a stage are listed in strictly ascending registration
/// order, so none is listed twice.
pub proof fn lemma_members_ascending(ms: Seq<SystemMeta>, stage: Stage, n: int)
    ensures
        forall|a: int, b: int| 0 <= a < b < members(ms, stage, n).len() ==> members(ms, stage, n)[a] < members(ms, stage, n)[b],
        forall|a: int| 0 <= a < members(ms, stage, n).len() ==> 0 <= #[trigger] members(ms, stage, n)[a] < n,
        forall|i: int| 0 <= i < n && ms[i].stage == stage ==> #[trigger] members(ms, stage, n).contains(i),
        members(ms, stage, n).no_duplicates(),
    decreases n,
{
    if n > 0 {
        lemma_members_ascending(ms, stage, n - 1);
        let p = members(ms, stage, n - 1);
        assert forall|i: int| 0 <= i < n && ms[i].stage == stage implies #[trigger] members(ms, stage, n).contains(i) by {
            if i < n - 1 {
                assert(p.contains(i));
                let k = choose|k: int| 0 <= k < p.len() && p[k] == i;
                assert(members(ms, stage, n)[k] == i);
            } else {
                assert(members(ms, stage, n)[p.len() as int] == i);
            }
        }
    }
    let m = members(ms, stage, n);
    assert forall|a: int, b: int| 0 <= a < m.len() && 0 <= b < m.len() && a != b implies m[a] != m[b] by {
        if a < b { assert(m[a] < m[b]); } else { assert(m[b] < m[a]); }
    }
}

/// The compiled order of `rem` lists exactly the systems of `rem`, each
/// once.
pub proof fn lemma_topo_permutation(ms: Seq<SystemMeta>, rem: Seq<int>)
    requires
        rem.no_duplicates(),
        topo(ms, rem) is Some,
    ensures
        topo(ms, rem)->Some_0.len() == rem.len(),
        topo(ms, rem)->Some_0.no_duplicates(),
        forall|x: int| #[trigger] topo(ms, rem)->Some_0.contains(x) <==> rem.contains(x),
    decreases rem.len(),
{
    if rem.len() > 0 {
        let i = first_ready(ms, rem, 0)->Some_0;
        let r2 = rem.remove(i);
        assert(r2.no_duplicates()) by {
            assert forall|a: int, b: int| 0 <= a < r2.len() && 0 <= b < r2.len() && a != b implies r2[a] != r2[b] by {
                let a0 = if a < i { a } else { a + 1 };
                let b0 = if b < i { b } else { b + 1 };
                assert(r2[a] == rem[a0] && r2[b] == rem[b0]);
            }
        }
        lemma_topo_permutation(ms, r2);
        let s = topo(ms, r2)->Some_0;
        let o = seq![rem[i]] + s;
        assert(topo(ms, rem)->Some_0 == o);
        assert forall|x: int| #[trigger] o.contains(x) <==> rem.contains(x) by {
            if o.contains(x) {
                let k = choose|k: int| 0 <= k < o.len() && o[k] == x;
                if k > 0 {
                    assert(s[k - 1] == x);
                    assert(s.contains(x));
                    let q = choose|q: int| 0 <= q < r2.len() && r2[q] == x;
                    let q0 = if q < i { q } else { q + 1 };
                    assert(rem[q0] == x);
                } else {
                    assert(rem[i] == x);
                }
            }
            if rem.contains(x) {
                let q0 = choose|q0: int| 0 <= q0 < rem.len() && rem[q0] == x;
                if q0 == i {
                    assert(o[0] == x);
                } else {
                    let q = if q0 < i { q0 } else { q0 - 1 };
                    assert(r2[q] == x);
                    assert(s.contains(x));
                    let k = choose|k: int| 0 <= k < s.len() && s[k] == x;
                    assert(o[k + 1] == x);
                }
            }
        }
        assert(!s.contains(rem[i])) by {
            if s.contains(rem[i]) {
                let q = choose|q: int| 0 <= q < r2.len() && r2[q] == rem[i];
                let q0 = if q < i { q } else { q + 1 };
                assert(rem[q0] == rem[i]);
            }
        }
        assert forall|a: int, b: int| 0 <= a < o.len() && 0 <= b < o.len() && a != b implies o[a] != o[b] by {
            if a == 0 && b > 0 {
                assert(o[b] == s[b - 1]);
                assert(s.contains(o[b]));
            } else if b == 0 && a > 0 {
                assert(o[a] == s[a - 1]);
                assert(s.contains(o[a]));
            } else if a > 0 && b > 0 {
                assert(o[a] == s[a - 1] && o[b] == s[b - 1]);
            }
        }
    }
}

/// In the compiled order every explicit `before`/`after` relation is
/// honored: when `x` must run before `y`, it does.
pub proof fn lemma_topo_respects_edges(ms: Seq<SystemMeta>, rem: Seq<int>, x: int, y: int, a: int, b: int)
    requires
        rem.no_duplicates(),
        topo(ms, rem) is Some,
        rem.contains(x),
        rem.contains(y),
        edge(ms, x, y),
        0 <= a < topo(ms, rem)->Some_0.len(),
        0 <= b < topo(ms, rem)->Some_0.len(),
        topo(ms, rem)->Some_0[a] == x,
        topo(ms, rem)->Some_0[b] == y,
    ensures
        a < b,
    decreases rem.len(),
{
    let i = first_ready(ms, rem, 0)->Some_0;
    let r2 = rem.remove(i);
    let s = topo(ms, r2)->Some_0;
    let o = seq![rem[i]] + s;
    assert(topo(ms, rem)->Some_0 == o);
    lemma_first_ready_sound(ms, rem, 0);
    assert(r2.no_duplicates()) by {
        assert forall|p: int, q: int| 0 <= p < r2.len() && 0 <= q < r2.len() && p != q implies r2[p] != r2[q] by {
            let p0 = if p < i { p } else { p + 1 };
            let q0 = if q < i { q } else { q + 1 };
            assert(r2[p] == rem[p0] && r2[q] == rem[q0]);
        }
    }
    lemma_topo_permutation(ms, r2);
    if rem[i] == y {
        let j = choose|j: int| 0 <= j < rem.len() && rem[j] == x;
        assert(!edge(ms, rem[j], rem[i]));
    } else if rem[i] == x {
        assert(b != 0);
        if a != 0 {
            assert(o[a] == s[a - 1]);
            assert(s.contains(x));
            assert(r2.contains(x));
            let q = choose|q: int| 0 <= q < r2.len() && r2[q] == x;
            let q0 = if q < i { q } else { q + 1 };
            assert(rem[q0] == x);
        }
    } else {
        assert(a > 0 && b > 0);
        assert(s[a - 1] == x && s[b - 1] == y);
        assert(s.contains(x) && s.contains(y));
        lemma_topo_respects_edges(ms, r2, x, y, a - 1, b - 1);
    }
}

proof fn lemma_first_ready_sound(ms: Seq<SystemMeta>, rem: Seq<int>, k: int)
    requires
        0 <= k,
    ensures
        first_ready(ms, rem, k) matches Some(i) ==> ready_at(ms, rem, i) && k <= i,
        first_ready(ms, rem, k) is None ==> forall|i: int| k <= i < rem.len() ==> !#[trigger] ready_at(ms, rem, i),
    decreases rem.len() - k,
{
    if 0 <= k < rem.len() && !ready_at(ms, rem, k) {
        lemma_first_ready_sound(ms, rem, k + 1);
        assert forall|i: int| k <= i < rem.len() && first_ready(ms, rem, k) is None implies !#[trigger] ready_at(ms, rem, i) by {
            if i == k {} else {}
        }
    }
}

/// With no explicit relation among them, systems keep registration order.
pub proof fn lemma_topo_unconstrained(ms: Seq<SystemMeta>, rem: Seq<int>)
    requires
        forall|x: int, y: int| rem.contains(x) && rem.contains(y) ==> !#[trigger] edge(ms, x, y),
    ensures
        topo(ms, rem) == Some(rem),
    decreases rem.len(),
{
    if rem.len() > 0 {
        assert(ready_at(ms, rem, 0)) by {
            assert forall|j: int| 0 <= j < rem.len() implies !edge(ms, #[trigger] rem[j], rem[0]) by {
                assert(rem.contains(rem[j]));
                assert(rem.contains(rem[0]));
            }
        }
        let r2 = rem.remove(0);
        assert forall|x: int, y: int| r2.contains(x) && r2.contains(y) implies !#[trigger] edge(ms, x, y) by {
            let p = choose|p: int| 0 <= p < r2.len() && r2[p] == x;
            let q = choose|q: int| 0 <= q < r2.len() && r2[q] == y;
            assert(rem[p + 1] == x);
            assert(rem[q + 1] == y);
            assert(rem.contains(x) && rem.contains(y));
        }
        lemma_topo_unconstrained(ms, r2);
        assert(seq![rem[0]] + r2 =~= rem);
    }
}

/// `o` lists the systems of `rem`, each once, and puts every system before
/// the systems it must run before.
pub open spec fn linearizes(ms: Seq<SystemMeta>, rem: Seq<int>, o: Seq<int>) -> bool {
    &&& o.len() == rem.len()
    &&& o.no_duplicates()
    &&& forall|x: int| #[trigger] o.contains(x) <==> rem.contains(x)
    &&& forall|a: int, b: int| 0 <= a < o.len() && 0 <= b < o.len() && #[trigger] edge(ms, o[a], o[b]) ==> a < b
}

/// Removing position `i` from a sequence without duplicates.
proof fn lemma_remove_at(s: Seq<int>, i: int)
    requires
        0 <= i < s.len(),
        s.no_duplicates(),
    ensures
        s.remove(i).no_duplicates(),
        forall|a: int| 0 <= a < s.remove(i).len() ==> #[trigger] s.remove(i)[a] == s[if a < i { a } else { a + 1 }],
        forall|x: int| #[trigger] s.remove(i).contains(x) <==> (s.contains(x) && x != s[i]),
{
    let r = s.remove(i);
    assert forall|a: int, b: int| 0 <= a < r.len() && 0 <= b < r.len() && a != b implies r[a] != r[b] by {
        let a0 = if a < i { a } else { a + 1 };
        let b0 = if b < i { b } else { b + 1 };
        assert(r[a] == s[a0] && r[b] == s[b0]);
    }
    assert forall|x: int| #[trigger] r.contains(x) <==> (s.contains(x) && x != s[i]) by {
        if r.contains(x) {
            let q = choose|q: int| 0 <= q < r.len() && r[q] == x;
            let q0 = if q < i { q } else { q + 1 };
            assert(s[q0] == x);
        }
        if s.contains(x) && x != s[i] {
            let q0 = choose|q0: int| 0 <= q0 < s.len() && s[q0] == x;
            let q = if q0 < i { q0 } else { q0 - 1 };
            assert(r[q] == x);
        }
    }
}

/// A stage's systems get a compiled order exactly when some order of them
/// honors every explicit `before`/`after` relation; so building reports a
/// cycle exactly when the relations among the stage's systems are cyclic.
pub proof fn lemma_topo_some_iff_orderable(ms: Seq<SystemMeta>, rem: Seq<int>)
    requires
        rem.no_duplicates(),
    ensures
        topo(ms, rem) is Some <==> exists|o: Seq<int>| #[trigger] linearizes(ms, rem, o),
    decreases rem.len(),
{
    if topo(ms, rem) is Some {
        let o = topo(ms, rem)->Some_0;
        lemma_topo_permutation(ms, rem);
        assert forall|a: int, b: int| 0 <= a < o.len() && 0 <= b < o.len() && #[trigger] edge(ms, o[a], o[b]) implies a < b by {
            assert(o.contains(o[a]) && o.contains(o[b]));
            lemma_topo_respects_edges(ms, rem, o[a], o[b], a, b);
        }
        assert(linearizes(ms, rem, o));
    } else if exists|o: Seq<int>| #[trigger] linearizes(ms, rem, o) {
        let o = choose|o: Seq<int>| #[trigger] linearizes(ms, rem, o);
        if rem.len() > 0 {
            assert(o.contains(o[0]));
            let p = choose|p: int| 0 <= p < rem.len() && rem[p] == o[0];
            assert(ready_at(ms, rem, p)) by {
                assert forall|j: int| 0 <= j < rem.len() implies !edge(ms, #[trigger] rem[j], rem[p]) by {
                    assert(rem.contains(rem[j]));
                    assert(o.contains(rem[j]));
                    let a = choose|a: int| 0 <= a < o.len() && o[a] == rem[j];
                    if edge(ms, rem[j], rem[p]) {
                        assert(edge(ms, o[a], o[0]));
                    }
                }
            }
            lemma_first_ready_sound(ms, rem, 0);
            let i = first_ready(ms, rem, 0)->Some_0;
            let y = rem[i];
            let r2 = rem.remove(i);
            lemma_remove_at(rem, i);
            assert(rem.contains(y));
            assert(o.contains(y));
            let k = choose|k: int| 0 <= k < o.len() && o[k] == y;
            let o2 = o.remove(k);
            lemma_remove_at(o, k);
            assert forall|a: int, b: int| 0 <= a < o2.len() && 0 <= b < o2.len() && #[trigger] edge(ms, o2[a], o2[b]) implies a < b by {
                let a0 = if a < k { a } else { a + 1 };
                let b0 = if b < k { b } else { b + 1 };
                assert(o2[a] == o[a0] && o2[b] == o[b0]);
                assert(edge(ms, o[a0], o[b0]));
            }
            assert(linearizes(ms, r2, o2));
            lemma_topo_some_iff_orderable(ms, r2);
            assert(topo(ms, r2) is Some);
        }
    }
}

} // verus!
