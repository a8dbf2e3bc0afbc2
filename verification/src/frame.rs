//! Frame-driven engine loop (Unity-style model) and frame-time modes.
//!
//! Times are nanosecond counts.
use vstd::prelude::*;

use std::any::TypeId;

use crate::erased::ErasedBox;
use crate::go::scene::Scene;
use crate::world::World;
use crate::render::RenderSnapshot;
use crate::schedule::Schedule;
use crate::system::Stage;

verus! {

/// Fixed logical step boundary: 1/60 s in nanoseconds (configurable).
pub const DEFAULT_FIXED_STEP: u64 = 16_666_666;

/// Anti-spiral safety valve: max FixedUpdate runs per rendered frame.
pub const MAX_FIXED_STEPS_PER_FRAME: usize = 16;

/// Frame rate mode.
///
/// `Capped` aligns the update dt with the target frame rate (frame limiting).
/// `Uncapped` uses the measured frame time, clamped by `max_dt` (ns).
#[derive(Clone, Copy, Debug, PartialEq, Eq, Structural)]
pub enum FrameMode {
    /// Limit the frame rate: Update dt becomes ~1/target_fps.
    Capped { target_fps: u32 },
    /// No frame limit: use the measured frame time, clamped by `max_dt`.
    Uncapped { max_dt: u64 },
}

/// The frame dt that a mode hands to Update for a measured frame time:
/// the target frame time when capped at a nonzero rate, the measured time
/// when capped at zero, and the measured time clamped by `max_dt` when
/// uncapped.
pub open spec fn resolved_dt(mode: FrameMode, measured: u64, target_dt: u64) -> u64 {
    match mode {
        FrameMode::Capped { target_fps } => if target_fps == 0 { measured } else { target_dt },
        FrameMode::Uncapped { max_dt } => if measured <= max_dt { measured } else { max_dt },
    }
}

/// A capped mode at a nonzero rate hands Update the target frame time,
/// whatever was measured: two frames of different measured length get the
/// same dt.
pub proof fn lemma_capped_dt_is_target(target_fps: u32, measured: u64, other: u64, target_dt: u64)
    requires
        target_fps != 0,
    ensures
        resolved_dt(FrameMode::Capped { target_fps }, measured, target_dt) == target_dt,
        resolved_dt(FrameMode::Capped { target_fps }, measured, target_dt)
            == resolved_dt(FrameMode::Capped { target_fps }, other, target_dt),
{
}

/// An uncapped mode hands Update the measured frame time clamped by
/// `max_dt`: the smaller of the two.
pub proof fn lemma_uncapped_dt_is_clamped(max_dt: u64, measured: u64, target_dt: u64)
    ensures
        resolved_dt(FrameMode::Uncapped { max_dt }, measured, target_dt) <= measured,
        resolved_dt(FrameMode::Uncapped { max_dt }, measured, target_dt) <= max_dt,
        resolved_dt(FrameMode::Uncapped { max_dt }, measured, target_dt) == measured
            || resolved_dt(FrameMode::Uncapped { max_dt }, measured, target_dt) == max_dt,
{
}

impl FrameMode {
    /// The frame dt (ns) for a measured frame time (ns). `target_dt` is the
    /// frame time `1 / target_fps` s of a capped mode in ns; the caller
    /// derives it from the rate, and it is used only when the rate is
    /// nonzero.
    pub fn frame_dt(&self, measured: u64, target_dt: u64) -> (dt: u64)
        ensures
            dt == resolved_dt(*self, measured, target_dt),
            *self matches FrameMode::Capped { target_fps } && target_fps != 0 ==> dt == target_dt,
            *self matches FrameMode::Capped { target_fps } && target_fps == 0 ==> dt == measured,
            *self matches FrameMode::Uncapped { max_dt } ==> dt <= max_dt && dt <= measured
                && (dt == measured || dt == max_dt),
    {
        match *self {
            FrameMode::Capped { target_fps } => {
                if target_fps == 0 {
                    measured
                } else {
                    target_dt
                }
            },
            FrameMode::Uncapped { max_dt } => {
                if measured <= max_dt {
                    measured
                } else {
                    max_dt
                }
            },
        }
    }
}

/// Per-frame time bookkeeping published as a resource.
#[derive(Clone, Copy, Debug, PartialEq, Eq, Structural)]
pub struct TimeState {
    /// Current rendered frame index (1-based).
    pub frame: u64,
    /// Frame dt handed to Update/PostUpdate this frame (ns).
    pub dt: u64,
    /// Fixed logical step (ns).
    pub fixed_step: u64,
    /// How many FixedUpdate runs happened this frame.
    pub fixed_runs: usize,
}

/// Statistics of one tick.
#[derive(Clone, Copy, Debug, PartialEq, Eq, Structural)]
pub struct RunStats {
    pub frame: u64,
    pub dt: u64,
    pub fixed_runs: usize,
}

/// How many fixed steps a frame runs and what stays accumulated, from the
/// accumulated time `total` and the step: every whole step runs, unless more
/// than the per-frame maximum would, in which case the maximum runs and the
/// remainder is dropped.
pub open spec fn fixed_plan(total: int, step: int) -> (int, int) {
    if total / step <= MAX_FIXED_STEPS_PER_FRAME {
        (total / step, total % step)
    } else {
        (MAX_FIXED_STEPS_PER_FRAME as int, 0)
    }
}

/// `s` repeated `n` times.
pub open spec fn repeated(s: Seq<int>, n: nat) -> Seq<int>
    decreases n,
{
    if n == 0 {
        Seq::empty()
    } else {
        repeated(s, (n - 1) as nat) + s
    }
}

/// The engine: owns the scene (and its world) and runs the schedule per frame.
pub struct Engine {
    scene: Scene,
    schedule: Schedule,
    mode: FrameMode,
    fixed_step: u64,
    accumulator: u64,
    frame: u64,
    /// The world as the last tick handed it to its Update stage.
    update_input: Ghost<World>,
}

impl Engine {
    /// The scene in the model.
    pub closed spec fn scene_spec(&self) -> Scene {
        self.scene
    }

    /// The schedule in the model.
    pub closed spec fn schedule_spec(&self) -> Schedule {
        self.schedule
    }

    /// The current frame mode.
    pub closed spec fn mode_spec(&self) -> FrameMode {
        self.mode
    }

    /// The fixed step (ns).
    pub closed spec fn step_spec(&self) -> u64 {
        self.fixed_step
    }

    /// The accumulated, not yet stepped time (ns).
    pub closed spec fn accumulated(&self) -> u64 {
        self.accumulator
    }

    /// The frames ticked so far.
    pub closed spec fn frames(&self) -> u64 {
        self.frame
    }

    /// The world as the last tick handed it to its Update stage.
    pub closed spec fn update_input(&self) -> World {
        self.update_input@
    }

    /// Internal consistency.
    pub open spec fn wf(&self) -> bool {
        &&& self.scene_spec().wf()
        &&& self.schedule_spec().wf()
        &&& self.step_spec() > 0
        &&& self.accumulated() < self.step_spec()
    }

    /// Creates an engine with the default fixed step (1/60 s).
    pub fn new(scene: Scene, schedule: Schedule, mode: FrameMode) -> (e: Self)
        requires
            scene.wf(),
            schedule.wf(),
        ensures
            e.wf(),
            e.scene_spec() == scene,
            e.mode_spec() == mode,
            e.step_spec() == DEFAULT_FIXED_STEP,
            e.accumulated() == 0,
            e.frames() == 0,
    {
        let ghost w = scene.world_spec();
        Engine { scene, schedule, mode, fixed_step: DEFAULT_FIXED_STEP, accumulator: 0, frame: 0, update_input: Ghost(w) }
    }

    /// Sets the fixed step (FixedUpdate period); it must be non-zero.
    pub fn with_fixed_step(self, step: u64) -> (e: Self)
        requires
            self.wf(),
            step > 0,
        ensures
            e.wf(),
            e.step_spec() == step,
            e.scene_spec() == self.scene_spec(),
            e.mode_spec() == self.mode_spec(),
            e.accumulated() == 0,
            e.frames() == self.frames(),
    {
        let mut e = self;
        e.fixed_step = step;
        e.accumulator = 0;
        e
    }

    /// The fixed step (ns).
    pub fn fixed_step(&self) -> (s: u64)
        ensures
            s == self.step_spec(),
    {
        self.fixed_step
    }

    /// The frame mode.
    pub fn mode(&self) -> (m: FrameMode)
        ensures
            m == self.mode_spec(),
    {
        self.mode
    }

    /// Switches the frame mode; the fixed step is unaffected.
    pub fn set_mode(&mut self, mode: FrameMode)
        ensures
            final(self).mode_spec() == mode,
            final(self).step_spec() == old(self).step_spec(),
            final(self).scene_spec() == old(self).scene_spec(),
            final(self).schedule_spec() == old(self).schedule_spec(),
            final(self).accumulated() == old(self).accumulated(),
            final(self).frames() == old(self).frames(),
    {
        self.mode = mode;
    }

    /// Shared access to the scene.
    pub fn scene(&self) -> (s: &Scene)
        ensures
            *s == self.scene_spec(),
    {
        &self.scene
    }

    /// Mutable access to the scene.
    pub fn scene_mut(&mut self) -> (s: &mut Scene)
        ensures
            *s == old(self).scene_spec(),
            final(self).scene_spec() == *final(s),
            final(self).step_spec() == old(self).step_spec(),
            final(self).mode_spec() == old(self).mode_spec(),
            final(self).schedule_spec() == old(self).schedule_spec(),
            final(self).accumulated() == old(self).accumulated(),
            final(self).frames() == old(self).frames(),
    {
        &mut self.scene
    }

    /// Resets the fixed-step accumulator (e.g. after a long pause).
    pub fn reset_accumulator(&mut self)
        requires
            old(self).wf(),
        ensures
            final(self).wf(),
            final(self).accumulated() == 0,
            final(self).frames() == old(self).frames(),
            final(self).step_spec() == old(self).step_spec(),
    {
        self.accumulator = 0;
    }

    /// Runs one frame with frame time `dt` (ns): FixedUpdate (0..N) ->
    /// Update -> PostUpdate, each stage's systems once in compiled order. The fixed stage runs once per whole fixed step
    /// accumulated, at most [`MAX_FIXED_STEPS_PER_FRAME`] times; the time
    /// bookkeeping is published before the frame-update systems.
    pub fn tick(&mut self, dt: u64) -> (stats: RunStats)
        requires
            old(self).wf(),
            old(self).frames() < u64::MAX,
            old(self).accumulated() + dt <= u64::MAX,
        ensures
            final(self).wf(),
            stats.frame == old(self).frames() + 1,
            final(self).frames() == stats.frame,
            stats.dt == dt,
            stats.fixed_runs as int == fixed_plan(old(self).accumulated() + dt, old(self).step_spec() as int).0,
            final(self).accumulated() as int == fixed_plan(old(self).accumulated() + dt, old(self).step_spec() as int).1,
            final(self).step_spec() == old(self).step_spec(),
            final(self).mode_spec() == old(self).mode_spec(),
            final(self).schedule_spec().runs() == old(self).schedule_spec().runs()
                + repeated(old(self).schedule_spec().stage_order(Stage::FixedUpdate), stats.fixed_runs as nat)
                + old(self).schedule_spec().stage_order(Stage::Update)
                + old(self).schedule_spec().stage_order(Stage::PostUpdate),
            forall|k: int| 0 <= k < 3 ==> #[trigger] final(self).schedule_spec().order_spec(k) == old(self).schedule_spec().order_spec(k),
            final(self).schedule_spec().metas_spec() == old(self).schedule_spec().metas_spec(),
            exists|t: TypeId| #[trigger] final(self).update_input().resources().contains_key(t)
                && World::identity_of::<TimeState>(t)
                && World::boxed(final(self).update_input().resources()[t],
                    TimeState { frame: stats.frame, dt, fixed_step: old(self).step_spec(), fixed_runs: stats.fixed_runs }),
            old(self).schedule_spec().stage_is_empty(Stage::Update) && old(self).schedule_spec().stage_is_empty(Stage::PostUpdate)
                ==> final(self).scene_spec().world_spec() == final(self).update_input(),
    {
        self.frame = self.frame + 1;
        let ghost total = self.accumulator + dt;
        let ghost step = self.fixed_step as int;
        let mut fixed_runs: usize = 0;
        self.accumulator = self.accumulator + dt;
        let mut capped = false;
        while self.accumulator >= self.fixed_step
            invariant_except_break
                !capped,
                self.accumulator as int + fixed_runs * step == total,
            invariant
                self.scene.wf(),
                self.schedule.wf(),
                step == self.fixed_step,
                step > 0,
                fixed_runs <= MAX_FIXED_STEPS_PER_FRAME,
                capped ==> fixed_runs == MAX_FIXED_STEPS_PER_FRAME && self.accumulator == 0
                    && total >= (MAX_FIXED_STEPS_PER_FRAME as int + 1) * step,
                self.mode == old(self).mode,
                self.frame == old(self).frames() + 1,
                self.schedule.runs() == old(self).schedule.runs()
                    + repeated(old(self).schedule.stage_order(Stage::FixedUpdate), fixed_runs as nat),
                forall|k: int| 0 <= k < 3 ==> #[trigger] self.schedule.order_spec(k) == old(self).schedule.order_spec(k),
                self.schedule.metas_spec() == old(self).schedule.metas_spec(),
            ensures
                !capped ==> self.accumulator < self.fixed_step && self.accumulator as int + fixed_runs * step == total,
            decreases self.accumulator,
        {
            if fixed_runs >= MAX_FIXED_STEPS_PER_FRAME {
                proof {
                    assert(total >= (MAX_FIXED_STEPS_PER_FRAME as int + 1) * step) by (nonlinear_arith)
                        requires
                            self.accumulator as int + fixed_runs * step == total,
                            self.accumulator >= step,
                            fixed_runs == MAX_FIXED_STEPS_PER_FRAME,
                    ;
                }
                self.accumulator = 0;
                capped = true;
                break;
            }
            self.accumulator = self.accumulator - self.fixed_step;
            fixed_runs = fixed_runs + 1;
            proof {
                assert(self.accumulator as int + fixed_runs * step == total) by (nonlinear_arith)
                    requires
                        self.accumulator as int + step + (fixed_runs - 1) * step == total,
                ;
            }
            let world = self.scene.world_mut();
            self.schedule.run_stage(world, Stage::FixedUpdate);
            proof {
                assert(self.schedule.order_spec(0) == old(self).schedule.order_spec(0));
                assert(repeated(old(self).schedule.stage_order(Stage::FixedUpdate), fixed_runs as nat)
                    == repeated(old(self).schedule.stage_order(Stage::FixedUpdate), (fixed_runs - 1) as nat)
                        + old(self).schedule.stage_order(Stage::FixedUpdate));
                assert(self.schedule.runs() =~= old(self).schedule.runs()
                    + repeated(old(self).schedule.stage_order(Stage::FixedUpdate), fixed_runs as nat));
            }
        }
        proof {
            if capped {
                assert(total / step > MAX_FIXED_STEPS_PER_FRAME) by (nonlinear_arith)
                    requires
                        total >= (MAX_FIXED_STEPS_PER_FRAME as int + 1) * step,
                        step > 0,
                ;
            } else {
                vstd::arithmetic::div_mod::lemma_fundamental_div_mod_converse(total, step, fixed_runs as int, self.accumulator as int);
            }
        }
        let ts = TimeState { frame: self.frame, dt, fixed_step: self.fixed_step, fixed_runs };
        let ghost w_before = self.scene.world_spec();
        self.scene.world_mut().insert_resource(ts);
        let ghost tt = choose|t: TypeId, b: ErasedBox| #[trigger] w_before.resources().insert(t, b) == self.scene.world_spec().resources()
            && World::boxed(b, ts) && World::identity_of::<TimeState>(t);
        proof {
            self.update_input@ = self.scene.world_spec();
            assert(self.update_input@.resources().contains_key(tt.0));
            assert(self.update_input@.resources()[tt.0] == tt.1);
            assert(World::boxed(self.update_input@.resources()[tt.0], ts));
        }
        let ghost sched0 = self.schedule;
        self.schedule.run_stage(self.scene.world_mut(), Stage::Update);
        proof {
            assert(self.schedule.order_spec(1) == old(self).schedule.order_spec(1));
        }
        self.schedule.run_stage(self.scene.world_mut(), Stage::PostUpdate);
        proof {
            assert(self.schedule.order_spec(2) == old(self).schedule.order_spec(2));
        }
        proof {
            assert(self.update_input().resources().contains_key(tt.0));
            assert(World::boxed(self.update_input().resources()[tt.0], ts));
            assert(ts == TimeState { frame: self.frame, dt, fixed_step: old(self).step_spec(), fixed_runs });
        }
        RunStats { frame: self.frame, dt, fixed_runs }
    }

    /// Produces the frame-end render snapshot.
    pub fn snapshot(&self) -> (s: RenderSnapshot)
        ensures
            s.frame_spec() == self.frames(),
    {
        RenderSnapshot::new(self.frame)
    }
}

} // verus!
