use std::cell::RefCell;
use std::rc::Rc;
use std::time::Duration;

use xengine::frame::{Engine, FrameMode, TimeState, DEFAULT_FIXED_STEP, MAX_FIXED_STEPS_PER_FRAME};
use xengine::go::scene::Scene;
use xengine::render::{NullRenderSink, RenderSink, RenderSnapshot};
use xengine::schedule::Schedule;
use xengine::system::{Stage, System};

fn ns(d: Duration) -> u64 {
    d.as_nanos() as u64
}

fn empty_schedule() -> Schedule {
    Schedule::build(vec![]).unwrap()
}

#[test]
fn slow_frame_runs_fixed_multiple_times_then_update_post() {
    let ticks = Rc::new(RefCell::new(Vec::new()));
    let fixed = {
        let t = ticks.clone();
        System::new("fixed", Stage::FixedUpdate, move |_| {
            t.borrow_mut().push("F");
        })
    };
    let update = {
        let t = ticks.clone();
        System::new("update", Stage::Update, move |_| {
            t.borrow_mut().push("U");
        })
    };
    let post = {
        let t = ticks.clone();
        System::new("post", Stage::PostUpdate, move |_| {
            t.borrow_mut().push("P");
        })
    };
    let schedule = Schedule::build(vec![fixed, update, post]).unwrap();
    let mut engine = Engine::new(
        Scene::new(1),
        schedule,
        FrameMode::Uncapped {
            max_dt: ns(Duration::from_secs(1)),
        },
    )
    .with_fixed_step(ns(Duration::from_millis(20)));
    let stats = engine.tick(ns(Duration::from_millis(100)));
    assert_eq!(stats.fixed_runs, 5);
    let log = ticks.borrow();
    assert_eq!(log.iter().filter(|x| **x == "F").count(), 5);
    assert_eq!(log.iter().filter(|x| **x == "U").count(), 1);
    assert_eq!(log.iter().filter(|x| **x == "P").count(), 1);
    assert_eq!(*log, vec!["F", "F", "F", "F", "F", "U", "P"]);
}

#[test]
fn fast_frame_runs_zero_fixed() {
    let stats = Engine::new(
        Scene::new(1),
        empty_schedule(),
        FrameMode::Uncapped {
            max_dt: ns(Duration::from_secs(1)),
        },
    )
    .tick(ns(Duration::from_millis(5)));
    assert_eq!(stats.fixed_runs, 0);
    assert_eq!(stats.dt, ns(Duration::from_millis(5)));
}

#[test]
fn mode_switch_keeps_fixed_step_constant() {
    let mut engine = Engine::new(
        Scene::new(1),
        empty_schedule(),
        FrameMode::Capped { target_fps: 60 },
    );
    // The capped frame time for 60 fps, as the frame loop computes it.
    let capped_dt = ns(Duration::from_secs_f64(1.0 / 60.0));
    let a = engine.tick(capped_dt);
    engine.set_mode(FrameMode::Uncapped {
        max_dt: ns(Duration::from_millis(50)),
    });
    let b = engine.tick(ns(Duration::from_millis(30)));
    // Fixed step unchanged; dt follows the mode.
    assert_eq!(engine.fixed_step(), ns(Duration::from_secs(1) / 60));
    assert_eq!(a.dt, capped_dt);
    assert_eq!(b.dt, ns(Duration::from_millis(30)));
    assert_eq!(
        engine.mode(),
        FrameMode::Uncapped {
            max_dt: ns(Duration::from_millis(50))
        }
    );
}

#[test]
fn time_state_is_published_and_snapshot_available() {
    let mut engine = Engine::new(
        Scene::new(1),
        empty_schedule(),
        FrameMode::Uncapped {
            max_dt: ns(Duration::from_secs(1)),
        },
    );
    engine.tick(ns(Duration::from_millis(16)));
    let ts = *engine
        .scene()
        .world()
        .get_resource::<TimeState>()
        .unwrap()
        .unwrap();
    assert_eq!(ts.frame, 1);
    assert_eq!(ts.dt, ns(Duration::from_millis(16)));
    assert_eq!(ts.fixed_step, DEFAULT_FIXED_STEP);
    assert_eq!(ts.fixed_runs, 0);
    let snap = engine.snapshot();
    assert_eq!(snap.frame(), 1);
}

#[test]
fn leftover_time_accumulates_across_frames() {
    let mut engine = Engine::new(
        Scene::new(1),
        empty_schedule(),
        FrameMode::Uncapped { max_dt: 1_000 },
    )
    .with_fixed_step(10);
    assert_eq!(engine.tick(7).fixed_runs, 0);
    // 7 + 7 = 14: one step, 4 carried over.
    assert_eq!(engine.tick(7).fixed_runs, 1);
    // 4 + 16 = 20: two steps, nothing carried over.
    assert_eq!(engine.tick(16).fixed_runs, 2);
    assert_eq!(engine.tick(9).fixed_runs, 0);
    engine.reset_accumulator();
    assert_eq!(engine.tick(9).fixed_runs, 0);
}

#[test]
fn fixed_steps_are_capped_per_frame_and_the_backlog_dropped() {
    let mut engine = Engine::new(
        Scene::new(1),
        empty_schedule(),
        FrameMode::Uncapped { max_dt: 1_000_000 },
    )
    .with_fixed_step(10);
    let stats = engine.tick(10 * (MAX_FIXED_STEPS_PER_FRAME as u64 + 5) + 3);
    assert_eq!(stats.fixed_runs, MAX_FIXED_STEPS_PER_FRAME);
    assert_eq!(stats.frame, 1);
    // The backlog was dropped: a short frame runs no fixed step.
    assert_eq!(engine.tick(9).fixed_runs, 0);
    assert_eq!(engine.tick(1).fixed_runs, 1);
}

#[test]
fn snapshot_carries_frame_and_null_sink_accepts() {
    let snap = RenderSnapshot::new(7);
    assert_eq!(snap.frame(), 7);
    let mut sink = NullRenderSink;
    sink.submit(&snap);
}

#[test]
fn scene_is_reachable_through_the_engine() {
    let mut engine = Engine::new(
        Scene::new(4),
        empty_schedule(),
        FrameMode::Capped { target_fps: 30 },
    );
    assert_eq!(engine.scene().scene_id(), 4);
    let e = engine.scene_mut().world_mut().create_empty();
    assert!(engine.scene().world().contains_entity(e));
    assert_eq!(engine.mode(), FrameMode::Capped { target_fps: 30 });
}

#[test]
fn capped_mode_uses_target_dt() {
    let mode = FrameMode::Capped { target_fps: 60 };
    let target = ns(Duration::from_secs_f64(1.0 / 60.0));
    let dt = mode.frame_dt(ns(Duration::from_millis(100)), target);
    assert_eq!(Duration::from_nanos(dt), Duration::from_secs_f64(1.0 / 60.0));
}

#[test]
fn uncapped_mode_uses_measured_clamped() {
    let mode = FrameMode::Uncapped {
        max_dt: ns(Duration::from_millis(50)),
    };
    assert_eq!(
        Duration::from_nanos(mode.frame_dt(ns(Duration::from_millis(12)), 0)),
        Duration::from_millis(12)
    );
    assert_eq!(
        Duration::from_nanos(mode.frame_dt(ns(Duration::from_millis(120)), 0)),
        Duration::from_millis(50)
    );
}

#[test]
fn capped_at_zero_rate_uses_measured_time() {
    let mode = FrameMode::Capped { target_fps: 0 };
    assert_eq!(mode.frame_dt(12_000_000, 16_666_666), 12_000_000);
}
